use regen_avl::api::{
    Comparator, Digest, DigestFactory, Hasher, Marshaller, Node, NodeData, NodeRef, NodeStore,
    Reader, TreeContext, Writer,
};
use regen_avl::balance::{insert, make_node, make_node_ref, node_height, node_rank};
use regen_avl::find::find_node;
use regen_avl::hash_serialize::{node_hash__node__key, read_node_ref};
use regen_avl::remove::{remove, remove_min};
use regen_avl::store::{MutableMap, PersistentMap, ReadableMap, StoreError};
use regen_avl::tree::Tree;
use std::cell::RefCell;
use std::cmp::Ordering;
use std::collections::BTreeMap;
use std::rc::Rc;
use std::sync::Arc;

// ---- what a context is made of, for these tests ----

struct NumberOrder;

impl Comparator<u64> for NumberOrder {
    fn compare(&self, a: &u64, b: &u64) -> Ordering {
        a.cmp(b)
    }
}

struct NumberCodec;

impl Writer<u64> for NumberCodec {
    fn write(&self, k: &u64) -> Vec<u8> {
        k.to_be_bytes().to_vec()
    }
}

impl Reader<u64> for NumberCodec {
    fn read(&self, buf: &[u8]) -> Result<u64, StoreError> {
        if buf.len() != 8 {
            return Err(StoreError::EncodingError);
        }
        let mut b = [0u8; 8];
        b.copy_from_slice(buf);
        Ok(u64::from_be_bytes(b))
    }
}

impl Marshaller<u64> for NumberCodec {}

struct BytesCodec;

impl Writer<Vec<u8>> for BytesCodec {
    fn write(&self, k: &Vec<u8>) -> Vec<u8> {
        k.clone()
    }
}

impl Reader<Vec<u8>> for BytesCodec {
    fn read(&self, buf: &[u8]) -> Result<Vec<u8>, StoreError> {
        Ok(buf.to_vec())
    }
}

impl Marshaller<Vec<u8>> for BytesCodec {}

const FNV_START: u64 = 0xcbf29ce484222325;

fn fnv(state: u64, bytes: &[u8]) -> u64 {
    let mut s = state;
    for b in bytes {
        s ^= *b as u64;
        s = s.wrapping_mul(0x100000001b3);
    }
    s
}

struct Fnv {
    state: u64,
}

impl Hasher for Fnv {
    fn input(&mut self, bytes: &[u8]) {
        self.state = fnv(self.state, bytes);
    }

    fn result(&self) -> Vec<u8> {
        self.state.to_be_bytes().to_vec()
    }

    fn output_size(&self) -> usize {
        8
    }
}

struct FnvFactory;

impl DigestFactory for FnvFactory {
    fn new_digest(&self) -> Digest {
        Digest { hasher: Box::new(Fnv { state: FNV_START }) }
    }
}

#[derive(Default)]
struct Shelf {
    records: BTreeMap<Vec<u8>, Vec<u8>>,
    broken: bool,
    writes: usize,
}

#[derive(Clone, Default)]
struct SharedStore(Rc<RefCell<Shelf>>);

impl SharedStore {
    fn check(&self) -> Result<(), StoreError> {
        if self.0.borrow().broken {
            Err(StoreError::StorageError(String::from("the shelf is broken")))
        } else {
            Ok(())
        }
    }

    fn len(&self) -> usize {
        self.0.borrow().records.len()
    }

    fn writes(&self) -> usize {
        self.0.borrow().writes
    }
}

impl ReadableMap<Vec<u8>, Vec<u8>> for SharedStore {
    fn get(&self, key: &Vec<u8>) -> Result<Option<Vec<u8>>, StoreError> {
        self.check()?;
        Ok(self.0.borrow().records.get(key).cloned())
    }

    fn has(&self, key: &Vec<u8>) -> Result<bool, StoreError> {
        self.check()?;
        Ok(self.0.borrow().records.contains_key(key))
    }
}

impl MutableMap<Vec<u8>, Vec<u8>> for SharedStore {
    fn set(&mut self, key: &Vec<u8>, value: &Vec<u8>) -> Result<(), StoreError> {
        self.check()?;
        let mut shelf = self.0.borrow_mut();
        shelf.records.insert(key.clone(), value.clone());
        shelf.writes += 1;
        Ok(())
    }

    fn delete(&mut self, key: &Vec<u8>) -> Result<(), StoreError> {
        self.check()?;
        self.0.borrow_mut().records.remove(key);
        Ok(())
    }
}

type Ctx = TreeContext<u64, Vec<u8>>;
type Link = NodeRef<u64, Vec<u8>>;
type NodeArc = Arc<Node<u64, Vec<u8>>>;

fn node_store(store: &SharedStore) -> NodeStore<u64, Vec<u8>> {
    NodeStore {
        store: Box::new(store.clone()),
        key_marshaller: Box::new(NumberCodec),
        value_marshaller: Box::new(BytesCodec),
    }
}

fn context(store: Option<&SharedStore>) -> Ctx {
    TreeContext {
        key_to_canonical_bytes: Box::new(NumberCodec),
        value_to_canonical_bytes: Box::new(BytesCodec),
        new_digest: Box::new(FnvFactory),
        store: store.map(|s| Box::new(node_store(s))),
        comparator: Box::new(NumberOrder),
    }
}

fn node_of(r: &Link) -> NodeArc {
    match r {
        NodeRef::MemRef(n) => n.clone(),
        _ => panic!("not in memory"),
    }
}

fn value(n: u64) -> Vec<u8> {
    format!("v{}", n).into_bytes()
}

fn tree_of(ctx: Arc<Ctx>, keys: &[u64]) -> Tree<u64, Vec<u8>> {
    let mut t = Tree::new(ctx);
    for k in keys {
        t = t.with(k, &value(*k)).unwrap();
    }
    t
}

/// Walks a tree in memory, checks every node's recorded height and rank and its
/// balance, and gives the keys from left to right with the true height.
fn audit(r: &Link, keys: &mut Vec<u64>) -> (u32, u64) {
    match r {
        NodeRef::NoRef => (0, 0),
        NodeRef::HashRef(_) => panic!("not in memory"),
        NodeRef::MemRef(n) => {
            let (lh, lr) = audit(&n.left, keys);
            keys.push(n.data.key);
            let (rh, rr) = audit(&n.right, keys);
            assert!(lh <= rh + 1 && rh <= lh + 1, "unbalanced at {}", n.data.key);
            assert_eq!(n.data.height, 1 + lh.max(rh));
            assert_eq!(n.data.rank, lr + rr + 1);
            (n.data.height, n.data.rank)
        }
    }
}

fn audited_keys(t: &Tree<u64, Vec<u8>>) -> Vec<u64> {
    let mut keys = Vec::new();
    audit(t.root(), &mut keys);
    for w in keys.windows(2) {
        assert!(w[0] < w[1]);
    }
    keys
}

fn scrambled(n: u64) -> Vec<u64> {
    let mut keys = Vec::new();
    let mut x: u64 = 12345;
    for _ in 0..n {
        x = x.wrapping_mul(6364136223846793005).wrapping_add(1442695040888963407);
        keys.push(x >> 40);
    }
    keys
}

// ---- insertion and rotation ----

#[test]
fn three_ascending_keys_rotate_once() {
    let t = tree_of(Arc::new(context(None)), &[1, 2, 3]);
    let root = node_of(t.root());
    assert_eq!(root.data.key, 2);
    assert_eq!(root.data.value, value(2));
    assert_eq!(root.data.height, 2);
    assert_eq!(root.data.rank, 3);
    assert_eq!(node_of(&root.left).data.key, 1);
    assert_eq!(node_of(&root.right).data.key, 3);
    assert_eq!(node_of(&root.left).data.height, 1);
    assert_eq!(node_of(&root.right).data.rank, 1);
}

#[test]
fn three_descending_keys_rotate_once() {
    let t = tree_of(Arc::new(context(None)), &[3, 2, 1]);
    let root = node_of(t.root());
    assert_eq!(root.data.key, 2);
    assert_eq!(node_of(&root.left).data.key, 1);
    assert_eq!(node_of(&root.right).data.key, 3);
    assert_eq!(root.data.height, 2);
}

#[test]
fn left_then_right_rotates_twice() {
    let t = tree_of(Arc::new(context(None)), &[3, 1, 2]);
    let root = node_of(t.root());
    assert_eq!(root.data.key, 2);
    assert_eq!(node_of(&root.left).data.key, 1);
    assert_eq!(node_of(&root.right).data.key, 3);
}

#[test]
fn right_then_left_rotates_twice() {
    let t = tree_of(Arc::new(context(None)), &[1, 3, 2]);
    let root = node_of(t.root());
    assert_eq!(root.data.key, 2);
    assert_eq!(node_of(&root.left).data.key, 1);
    assert_eq!(node_of(&root.right).data.key, 3);
}

#[test]
fn first_insertion_makes_a_leaf() {
    let t = tree_of(Arc::new(context(None)), &[7]);
    let root = node_of(t.root());
    assert_eq!(root.data.height, 1);
    assert_eq!(root.data.rank, 1);
    assert!(matches!(root.left, NodeRef::NoRef));
    assert!(matches!(root.right, NodeRef::NoRef));
    assert!(root.hash.is_none());
}

#[test]
fn inserting_a_present_key_replaces_the_value_only() {
    let t = tree_of(Arc::new(context(None)), &[1, 2, 3, 4, 5]);
    let before = audited_keys(&t);
    let t2 = t.with(&4, &b"new".to_vec()).unwrap();
    assert_eq!(audited_keys(&t2), before);
    assert_eq!(t2.get(&4).unwrap(), Some(b"new".to_vec()));
    assert_eq!(node_of(t2.root()).data.key, node_of(t.root()).data.key);
    assert_eq!(node_of(t2.root()).data.rank, 5);
    // the version before is as it was
    assert_eq!(t.get(&4).unwrap(), Some(value(4)));
}

#[test]
fn every_node_stays_balanced_and_ordered() {
    let ascending: Vec<u64> = (1..=200).collect();
    let t = tree_of(Arc::new(context(None)), &ascending);
    assert_eq!(audited_keys(&t), ascending);
    assert_eq!(node_of(t.root()).data.height, 8);

    let keys = scrambled(300);
    let t = tree_of(Arc::new(context(None)), &keys);
    let mut expected = keys.clone();
    expected.sort();
    expected.dedup();
    assert_eq!(audited_keys(&t), expected);
    for k in &keys {
        assert_eq!(t.get(k).unwrap(), Some(value(*k)));
    }
}

#[test]
fn old_versions_share_and_keep_their_entries() {
    let t1 = tree_of(Arc::new(context(None)), &[10, 20, 30, 40]);
    let t2 = t1.with(&50, &value(50)).unwrap();
    assert_eq!(audited_keys(&t1), vec![10, 20, 30, 40]);
    assert_eq!(audited_keys(&t2), vec![10, 20, 30, 40, 50]);
    // the untouched left subtree is the same node in both versions
    let l1 = node_of(&node_of(t1.root()).left);
    let l2 = node_of(&node_of(t2.root()).left);
    assert!(Arc::ptr_eq(&l1, &l2));
}

#[test]
fn free_functions_build_what_the_tree_builds() {
    let ctx = context(None);
    let a = insert(None, &ctx, &5, &value(5)).unwrap();
    let b = insert(Some(a), &ctx, &9, &value(9)).unwrap();
    assert_eq!(b.data.key, 5);
    assert_eq!(b.data.height, 2);
    assert_eq!(node_height(&Some(b.clone())), 2);
    assert_eq!(node_rank(&Some(b.clone())), 2);
    assert_eq!(node_height::<u64, Vec<u8>>(&None), 0);
    assert_eq!(node_rank::<u64, Vec<u8>>(&None), 0);
    assert_eq!(b.balance_factor(&ctx).unwrap(), -1);
    assert!(matches!(make_node_ref::<u64, Vec<u8>>(None), NodeRef::NoRef));
    assert!(matches!(make_node_ref(Some(b.clone())), NodeRef::MemRef(_)));
    let found = find_node(&b, &ctx, &9).unwrap().unwrap();
    assert_eq!(found.data.value, value(9));
    assert!(find_node(&b, &ctx, &6).unwrap().is_none());
}

#[test]
fn make_node_counts_height_and_rank() {
    let leaf = make_node(&1u64, &value(1), None, None).unwrap();
    assert_eq!((leaf.data.height, leaf.data.rank), (1, 1));
    let other = make_node(&3u64, &value(3), None, None).unwrap();
    let top = make_node(&2u64, &value(2), Some(leaf), Some(other)).unwrap();
    assert_eq!((top.data.height, top.data.rank), (2, 3));
    let chain = make_node(&4u64, &value(4), Some(top), None).unwrap();
    assert_eq!((chain.data.height, chain.data.rank), (3, 4));
    assert!(chain.hash.is_none());
}

#[test]
fn balance_rebuilds_a_left_heavy_node() {
    let ctx = context(None);
    let a = make_node(&1u64, &value(1), None, None).unwrap();
    let b = make_node(&2u64, &value(2), Some(a), None).unwrap();
    let c = make_node(&3u64, &value(3), Some(b), None).unwrap();
    assert_eq!(c.balance_factor(&ctx).unwrap(), 2);
    let t = c.balance(&ctx).unwrap();
    assert_eq!(t.data.key, 2);
    assert_eq!(t.data.height, 2);
    assert_eq!(node_of(&t.left).data.key, 1);
    assert_eq!(node_of(&t.right).data.key, 3);
    // the node that was rebalanced is as it was
    assert_eq!(c.data.key, 3);
    assert_eq!(c.data.height, 3);
}

#[test]
fn update_value_keeps_shape_and_drops_the_hash() {
    let ctx = context(None);
    let t = tree_of(Arc::new(context(None)), &[1, 2, 3]);
    let hashed = t.root().calc_hash_serialize(&mut context(None), false).unwrap().unwrap();
    let root = node_of(&hashed);
    assert!(root.hash.is_some());
    let updated = root.update_value(&b"x".to_vec());
    assert_eq!(updated.data.key, 2);
    assert_eq!(updated.data.value, b"x".to_vec());
    assert_eq!(updated.data.height, 2);
    assert_eq!(updated.data.rank, 3);
    assert!(updated.hash.is_none());
    assert_eq!(updated.balance_factor(&ctx).unwrap(), 0);
}

// ---- lookup ----

#[test]
fn get_and_has_follow_the_entries() {
    let t = tree_of(Arc::new(context(None)), &[5, 1, 9, 3]);
    assert_eq!(t.get(&3).unwrap(), Some(value(3)));
    assert_eq!(t.get(&4).unwrap(), None);
    assert!(t.has(&9).unwrap());
    assert!(!t.has(&0).unwrap());
    let empty: Tree<u64, Vec<u8>> = Tree::new(Arc::new(context(None)));
    assert_eq!(empty.get(&1).unwrap(), None);
    assert!(!empty.has(&1).unwrap());
    assert!(matches!(empty.root(), NodeRef::NoRef));
}

// ---- removal ----

#[test]
fn without_takes_leaves_and_inner_nodes() {
    let t = tree_of(Arc::new(context(None)), &[4, 2, 6, 1, 3, 5, 7]);
    let no_leaf = t.without(&1).unwrap();
    assert_eq!(audited_keys(&no_leaf), vec![2, 3, 4, 5, 6, 7]);
    let no_inner = t.without(&2).unwrap();
    assert_eq!(audited_keys(&no_inner), vec![1, 3, 4, 5, 6, 7]);
    let no_root = t.without(&4).unwrap();
    assert_eq!(audited_keys(&no_root), vec![1, 2, 3, 5, 6, 7]);
    // the entry that followed the root took its place
    assert_eq!(node_of(no_root.root()).data.key, 5);
    let same = t.without(&8).unwrap();
    assert_eq!(audited_keys(&same), vec![1, 2, 3, 4, 5, 6, 7]);
    assert_eq!(audited_keys(&t), vec![1, 2, 3, 4, 5, 6, 7]);
    assert_eq!(no_root.get(&4).unwrap(), None);
    assert_eq!(no_root.get(&5).unwrap(), Some(value(5)));
}

#[test]
fn without_rebalances() {
    // removing 1 leaves the right side two higher
    let t = tree_of(Arc::new(context(None)), &[2, 1, 3, 4]);
    let t = t.without(&1).unwrap();
    assert_eq!(audited_keys(&t), vec![2, 3, 4]);
    assert_eq!(node_of(t.root()).data.key, 3);
    assert_eq!(node_of(t.root()).data.height, 2);
}

#[test]
fn without_down_to_nothing() {
    let keys = scrambled(120);
    let mut t = tree_of(Arc::new(context(None)), &keys);
    let mut left: Vec<u64> = audited_keys(&t);
    for k in &keys {
        t = t.without(k).unwrap();
        left.retain(|x| x != k);
        assert_eq!(audited_keys(&t), left);
    }
    assert!(matches!(t.root(), NodeRef::NoRef));
}

#[test]
fn remove_min_gives_the_first_entry() {
    let ctx = context(None);
    let t = tree_of(Arc::new(context(None)), &[4, 2, 6, 1]);
    let (rest, k, v) = remove_min(&node_of(t.root()), &ctx).unwrap();
    assert_eq!(k, 1);
    assert_eq!(v, value(1));
    let mut keys = Vec::new();
    audit(&make_node_ref(rest), &mut keys);
    assert_eq!(keys, vec![2, 4, 6]);
    let gone = remove(Some(node_of(t.root())), &ctx, &6).unwrap();
    let mut keys = Vec::new();
    audit(&make_node_ref(gone), &mut keys);
    assert_eq!(keys, vec![1, 2, 4]);
    assert!(remove::<u64, Vec<u8>>(None, &ctx, &6).unwrap().is_none());
}

fn put_three<M: PersistentMap<u64, Vec<u8>>>(m: &M) -> M {
    let m = m.with(&1, &value(1)).unwrap();
    let m = m.with(&2, &value(2)).unwrap();
    m.with(&3, &value(3)).unwrap().without(&2).unwrap()
}

#[test]
fn the_tree_is_a_persistent_map() {
    let t: Tree<u64, Vec<u8>> = Tree::new(Arc::new(context(None)));
    let t = put_three(&t);
    assert_eq!(audited_keys(&t), vec![1, 3]);
}

// ---- hashing ----

fn leaf_hash(k: u64) -> Vec<u8> {
    let mut s = fnv(FNV_START, &k.to_be_bytes());
    s = fnv(s, &value(k));
    s.to_be_bytes().to_vec()
}

fn fork_hash(k: u64, left: &[u8], right: &[u8]) -> Vec<u8> {
    let mut s = fnv(FNV_START, &k.to_be_bytes());
    s = fnv(s, &value(k));
    s = fnv(s, left);
    s = fnv(s, right);
    s.to_be_bytes().to_vec()
}

#[test]
fn the_hash_of_a_node_covers_key_value_and_children() {
    let t = tree_of(Arc::new(context(None)), &[1, 2, 3]);
    let expected = fork_hash(2, &leaf_hash(1), &leaf_hash(3));
    assert_eq!(t.hash(), expected);
    assert_eq!(leaf_hash(1), fork_hash(1, b"", b""));
    let empty: Tree<u64, Vec<u8>> = Tree::new(Arc::new(context(None)));
    assert_eq!(empty.hash(), Vec::<u8>::new());
    let half = tree_of(Arc::new(context(None)), &[1, 2]);
    assert_eq!(half.hash(), fork_hash(1, b"", &leaf_hash(2)));
}

#[test]
fn hashing_in_memory_fills_every_hash_once() {
    let mut ctx = context(None);
    let t = tree_of(Arc::new(context(None)), &[1, 2, 3]);
    let hashed = t.root().calc_hash_serialize(&mut ctx, false).unwrap().unwrap();
    let root = node_of(&hashed);
    assert_eq!(root.hash, Some(t.hash()));
    assert_eq!(node_of(&root.left).hash, Some(leaf_hash(1)));
    assert_eq!(node_of(&root.right).hash, Some(leaf_hash(3)));
    assert_eq!(hashed.get_hash(), t.hash());
    assert_eq!(root.data.key, 2);
    // the tree before has no hashes still
    assert!(node_of(t.root()).hash.is_none());
    assert_eq!(t.root().get_hash(), Vec::<u8>::new());
    // hashing what is hashed changes nothing
    assert!(hashed.calc_hash_serialize(&mut ctx, false).unwrap().is_none());
    assert!(root.calc_hash_serialize(&mut ctx, false).unwrap().is_none());
    let none: Link = NodeRef::NoRef;
    assert!(none.calc_hash_serialize(&mut ctx, false).unwrap().is_none());
    assert_eq!(none.get_hash(), Vec::<u8>::new());
    let by_hash: Link = NodeRef::HashRef(vec![1, 2, 3]);
    assert!(by_hash.calc_hash_serialize(&mut ctx, true).unwrap().is_none());
    assert_eq!(by_hash.get_hash(), vec![1, 2, 3]);
    assert_eq!(by_hash.hash(&ctx), vec![1, 2, 3]);
}

#[test]
fn inserting_twice_hashes_like_inserting_once() {
    let base = tree_of(Arc::new(context(None)), &scrambled(40));
    let once = base.with(&77, &value(77)).unwrap();
    let twice = once.with(&77, &value(77)).unwrap();
    assert_eq!(once.hash(), twice.hash());
    assert_eq!(audited_keys(&once), audited_keys(&twice));
    assert_ne!(once.hash(), base.hash());
    // a present entry again changes nothing either
    let present = scrambled(40)[3];
    assert_eq!(base.with(&present, &value(present)).unwrap().hash(), base.hash());
}

#[test]
fn replaying_the_same_insertions_gives_the_same_tree() {
    let keys = scrambled(64);
    let a = tree_of(Arc::new(context(None)), &keys);
    let b = tree_of(Arc::new(context(None)), &keys);
    assert_eq!(a.hash(), b.hash());
    assert_eq!(node_of(a.root()).data.key, node_of(b.root()).data.key);
    assert_eq!(node_of(a.root()).data.height, node_of(b.root()).data.height);
    // the order of insertion shows in the shape and so in the hash
    let x = tree_of(Arc::new(context(None)), &[1, 2, 3, 4]);
    let y = tree_of(Arc::new(context(None)), &[4, 3, 2, 1]);
    assert_eq!(audited_keys(&x), audited_keys(&y));
    assert_ne!(x.hash(), y.hash());
}

// ---- the store ----

#[test]
fn store_keys_start_with_the_prefix() {
    assert_eq!(node_hash__node__key(&[7, 8]), vec![0, 7, 8]);
    assert_eq!(node_hash__node__key(&[]), vec![0]);
}

#[test]
fn an_empty_child_hash_is_no_reference() {
    assert!(matches!(read_node_ref::<u64, Vec<u8>>(Vec::new()), NodeRef::NoRef));
    match read_node_ref::<u64, Vec<u8>>(vec![9]) {
        NodeRef::HashRef(h) => assert_eq!(h, vec![9]),
        _ => panic!("a hash is a reference"),
    }
}

#[test]
fn a_written_node_reads_back() {
    let store = SharedStore::default();
    let mut ns = node_store(&store);
    let node = Node {
        data: Arc::new(NodeData { key: 42u64, value: b"answer".to_vec(), height: 3, rank: 5 }),
        left: NodeRef::HashRef(vec![1, 1]),
        right: NodeRef::NoRef,
        hash: None,
    };
    let hash = vec![0xaa, 0xbb];
    assert!(!ns.has(&hash).unwrap());
    assert!(ns.get(&hash).unwrap().is_none());
    ns.set(&hash, &node).unwrap();
    assert!(ns.has(&hash).unwrap());
    assert_eq!(store.len(), 1);
    assert!(store.0.borrow().records.contains_key(&vec![0u8, 0xaa, 0xbb]));
    let back = ns.get(&hash).unwrap().unwrap();
    assert_eq!(back.data.key, 42);
    assert_eq!(back.data.value, b"answer".to_vec());
    assert_eq!(back.data.height, 3);
    assert_eq!(back.data.rank, 5);
    assert_eq!(back.left.get_hash(), vec![1, 1]);
    assert!(matches!(back.left, NodeRef::HashRef(_)));
    assert!(matches!(back.right, NodeRef::NoRef));
    assert_eq!(back.hash, Some(hash.clone()));
    ns.delete(&hash).unwrap();
    assert!(!ns.has(&hash).unwrap());
    assert!(ns.get(&hash).unwrap().is_none());
}

#[test]
fn a_node_under_the_empty_hash_comes_back_without_hash() {
    let store = SharedStore::default();
    let mut ns = node_store(&store);
    let node = Node {
        data: Arc::new(NodeData { key: 1u64, value: Vec::new(), height: 1, rank: 1 }),
        left: NodeRef::NoRef,
        right: NodeRef::NoRef,
        hash: None,
    };
    ns.set(&Vec::new(), &node).unwrap();
    let back = ns.get(&Vec::new()).unwrap().unwrap();
    assert!(back.hash.is_none());
    assert_eq!(back.data.value, Vec::<u8>::new());
}

#[test]
fn serializing_writes_every_node_once_and_leaves_a_hash() {
    let store = SharedStore::default();
    let mut ctx = context(Some(&store));
    let keys: Vec<u64> = (1..=20).collect();
    let t = tree_of(Arc::new(context(Some(&store))), &keys);
    let root = t.root().calc_hash_serialize(&mut ctx, true).unwrap().unwrap();
    assert!(matches!(root, NodeRef::HashRef(_)));
    assert_eq!(root.get_hash(), t.hash());
    assert_eq!(store.len(), 20);
    assert_eq!(store.writes(), 20);
    // the stored version reads like the one in memory
    let stored = Tree::from_root(Arc::new(context(Some(&store))), root.clone());
    for k in &keys {
        assert_eq!(stored.get(k).unwrap(), Some(value(*k)));
    }
    assert_eq!(stored.get(&21).unwrap(), None);
    assert_eq!(stored.hash(), t.hash());
    // serializing again writes nothing
    assert!(root.calc_hash_serialize(&mut ctx, true).unwrap().is_none());
    let again = t.root().calc_hash_serialize(&mut ctx, true).unwrap().unwrap();
    assert_eq!(again.get_hash(), t.hash());
    assert_eq!(store.len(), 20);
}

#[test]
fn one_insertion_after_a_commit_writes_few_records() {
    let store = SharedStore::default();
    let mut ctx = context(Some(&store));
    let keys = scrambled(500);
    let t = tree_of(Arc::new(context(Some(&store))), &keys);
    let count = audited_keys(&t).len();
    let height = node_of(t.root()).data.height as usize;
    let root = t.root().calc_hash_serialize(&mut ctx, true).unwrap().unwrap();
    assert_eq!(store.len(), count);
    let writes_before = store.writes();

    let committed = Tree::from_root(Arc::new(context(Some(&store))), root);
    let next = committed.with(&1, &value(1)).unwrap();
    let next_root = next.root().calc_hash_serialize(&mut ctx, true).unwrap().unwrap();
    let new_writes = store.writes() - writes_before;
    assert!(new_writes >= 1);
    assert!(new_writes <= 3 * height + 4);
    assert!(store.len() <= count + 3 * height + 4);
    assert!(height <= 12);

    let reread = Tree::from_root(Arc::new(context(Some(&store))), next_root);
    assert_eq!(reread.get(&1).unwrap(), Some(value(1)));
    for k in keys.iter().take(50) {
        assert_eq!(reread.get(k).unwrap(), Some(value(*k)));
    }
    // the version before is still there under its hash
    assert_eq!(committed.get(&1).unwrap(), None);
}

#[test]
fn a_hashed_node_with_a_record_is_not_written_again() {
    let store = SharedStore::default();
    let mut ctx = context(Some(&store));
    let t = tree_of(Arc::new(context(Some(&store))), &[1, 2, 3]);
    let hashed = t.root().calc_hash_serialize(&mut ctx, false).unwrap().unwrap();
    assert_eq!(store.len(), 0);
    // only the root's record is there: the subtrees are taken to be there too
    let root = node_of(&hashed);
    ctx.put_record(&root.hash.clone().unwrap(), &root).unwrap();
    assert_eq!(store.writes(), 1);
    let r = hashed.calc_hash_serialize(&mut ctx, true).unwrap().unwrap();
    assert!(matches!(r, NodeRef::HashRef(_)));
    assert_eq!(store.writes(), 1);
    assert!(ctx.has_record(&root.hash.clone().unwrap()).unwrap());
    assert!(!ctx.has_record(&leaf_hash(1)).unwrap());
}

#[test]
fn a_hashed_tree_without_records_is_written_whole() {
    let store = SharedStore::default();
    let mut ctx = context(Some(&store));
    let t = tree_of(Arc::new(context(Some(&store))), &[1, 2, 3]);
    let hashed = t.root().calc_hash_serialize(&mut ctx, false).unwrap().unwrap();
    let r = hashed.calc_hash_serialize(&mut ctx, true).unwrap().unwrap();
    assert_eq!(r.get_hash(), t.hash());
    assert_eq!(store.len(), 3);
    let stored = Tree::from_root(Arc::new(context(Some(&store))), r);
    assert_eq!(stored.get(&3).unwrap(), Some(value(3)));
}

// ---- errors ----

#[test]
fn a_hash_without_a_store_is_a_missing_store() {
    let t: Tree<u64, Vec<u8>> =
        Tree::from_root(Arc::new(context(None)), NodeRef::HashRef(vec![1, 2, 3]));
    assert_eq!(t.get(&1), Err(StoreError::MissingStore));
    assert_eq!(t.has(&1), Err(StoreError::MissingStore));
    assert!(matches!(t.with(&1, &value(1)), Err(StoreError::MissingStore)));
    assert!(matches!(t.without(&1), Err(StoreError::MissingStore)));
    let ctx = context(None);
    assert!(matches!(ctx.get_store(), Err(StoreError::MissingStore)));
    let mut ctx = context(None);
    assert!(matches!(ctx.get_store_mut(), Err(StoreError::MissingStore)));
    let fresh = tree_of(Arc::new(context(None)), &[1]);
    assert_eq!(
        fresh.root().calc_hash_serialize(&mut ctx, true).err(),
        Some(StoreError::MissingStore)
    );
    assert!(context(Some(&SharedStore::default())).get_store().is_ok());
}

#[test]
fn a_missing_record_stands_for_no_subtree() {
    let store = SharedStore::default();
    let t: Tree<u64, Vec<u8>> =
        Tree::from_root(Arc::new(context(Some(&store))), NodeRef::HashRef(vec![1, 2, 3]));
    assert_eq!(t.get(&1), Ok(None));
    let t2 = t.with(&1, &value(1)).unwrap();
    assert_eq!(audited_keys(&t2), vec![1]);
}

#[test]
fn a_broken_store_is_a_storage_error() {
    let store = SharedStore::default();
    let mut ctx = context(Some(&store));
    let t = tree_of(Arc::new(context(Some(&store))), &[1, 2, 3]);
    let root = t.root().calc_hash_serialize(&mut ctx, true).unwrap().unwrap();
    let stored = Tree::from_root(Arc::new(context(Some(&store))), root);
    store.0.borrow_mut().broken = true;
    assert!(matches!(stored.get(&1), Err(StoreError::StorageError(_))));
    assert!(matches!(stored.with(&9, &value(9)), Err(StoreError::StorageError(_))));
    let more = tree_of(Arc::new(context(None)), &[5]);
    assert!(matches!(
        more.root().calc_hash_serialize(&mut ctx, true),
        Err(StoreError::StorageError(_))
    ));
    // what is in memory needs no store
    assert_eq!(t.get(&1).unwrap(), Some(value(1)));
    assert_eq!(audited_keys(&t.with(&9, &value(9)).unwrap()), vec![1, 2, 3, 9]);
}

#[test]
fn a_record_that_cannot_be_read_is_an_encoding_error() {
    let store = SharedStore::default();
    store.0.borrow_mut().records.insert(vec![0, 5], vec![0xff, 0xff, 0xff]);
    // a record whose key the marshaller rejects: field 1 with three bytes
    store.0.borrow_mut().records.insert(vec![0, 6], vec![0x0a, 3, 1, 2, 3, 0x28, 1, 0x30, 1]);
    let ns = node_store(&store);
    assert_eq!(ns.get(&vec![5]).err(), Some(StoreError::EncodingError));
    assert_eq!(ns.get(&vec![6]).err(), Some(StoreError::EncodingError));
    let t: Tree<u64, Vec<u8>> =
        Tree::from_root(Arc::new(context(Some(&store))), NodeRef::HashRef(vec![5]));
    assert_eq!(t.get(&1), Err(StoreError::EncodingError));
}

#[test]
fn a_child_as_high_as_its_parent_is_an_invariant_violation() {
    let child = Arc::new(Node {
        data: Arc::new(NodeData { key: 1u64, value: value(1), height: 2, rank: 1 }),
        left: NodeRef::NoRef,
        right: NodeRef::NoRef,
        hash: None,
    });
    let parent = Arc::new(Node {
        data: Arc::new(NodeData { key: 5u64, value: value(5), height: 2, rank: 2 }),
        left: NodeRef::MemRef(child),
        right: NodeRef::NoRef,
        hash: None,
    });
    let t = Tree::from_root(Arc::new(context(None)), NodeRef::MemRef(parent.clone()));
    assert_eq!(t.get(&1), Err(StoreError::InvariantViolation));
    assert!(matches!(t.with(&0, &value(0)), Err(StoreError::InvariantViolation)));
    // the search does not go there for the root's own key
    assert_eq!(t.get(&5), Ok(Some(value(5))));
    let ctx = context(None);
    assert_eq!(parent.balance(&ctx).err(), Some(StoreError::InvariantViolation));
    assert_eq!(
        parent.left.get_child(&ctx, 2).err(),
        Some(StoreError::InvariantViolation)
    );
    assert!(parent.left.get_child(&ctx, 3).unwrap().is_some());
    assert!(parent.left.get_node(&ctx).unwrap().is_some());
}

#[test]
fn counts_that_do_not_fit_are_an_invariant_violation() {
    let full = Arc::new(Node {
        data: Arc::new(NodeData { key: 1u64, value: value(1), height: 1, rank: u64::MAX }),
        left: NodeRef::NoRef,
        right: NodeRef::NoRef,
        hash: None,
    });
    assert_eq!(
        make_node(&2u64, &value(2), Some(full), None).err(),
        Some(StoreError::InvariantViolation)
    );
    let high = Arc::new(Node {
        data: Arc::new(NodeData { key: 1u64, value: value(1), height: u32::MAX, rank: 1 }),
        left: NodeRef::NoRef,
        right: NodeRef::NoRef,
        hash: None,
    });
    assert_eq!(
        make_node(&2u64, &value(2), None, Some(high)).err(),
        Some(StoreError::InvariantViolation)
    );
}

// ---- the steps of the engine, one by one ----

#[test]
fn children_come_from_memory_or_from_the_store() {
    let store = SharedStore::default();
    let mut ctx = context(Some(&store));
    let t = tree_of(Arc::new(context(Some(&store))), &[2, 1, 3]);
    let root = node_of(t.root());
    let (l, r) = regen_avl::balance::get_children(&root, &ctx).unwrap();
    assert_eq!(l.unwrap().data.key, 1);
    assert_eq!(r.unwrap().data.key, 3);
    let leaf = node_of(&root.left);
    let (l, r) = regen_avl::balance::get_children(&leaf, &ctx).unwrap();
    assert!(l.is_none() && r.is_none());

    let committed = t.root().calc_hash_serialize(&mut ctx, true).unwrap().unwrap();
    let loaded = committed.get_node(&ctx).unwrap().unwrap();
    assert_eq!(loaded.data.key, 2);
    assert_eq!(loaded.hash, Some(t.hash()));
    assert!(matches!(loaded.left, NodeRef::HashRef(_)));
    assert_eq!(regen_avl::balance::get_left(&loaded, &ctx).unwrap().unwrap().data.key, 1);
    assert_eq!(regen_avl::balance::get_right(&loaded, &ctx).unwrap().unwrap().data.key, 3);
    let none: Link = NodeRef::NoRef;
    assert!(none.get_node(&ctx).unwrap().is_none());
    assert!(none.get_child(&ctx, 1).unwrap().is_none());
}

#[test]
fn rotations_lift_the_right_node() {
    let ctx = context(None);
    let leaf = |k: u64| make_node(&k, &value(k), None, None).unwrap();
    // 1 and 3 under 2, on the left of 5
    let l = make_node(&2u64, &value(2), Some(leaf(1)), Some(leaf(3))).unwrap();
    let t = regen_avl::balance::rotate_right(&ctx, &l, &5, &value(5), None).unwrap();
    assert_eq!(t.data.key, 2);
    assert_eq!(node_of(&t.left).data.key, 1);
    let right = node_of(&t.right);
    assert_eq!(right.data.key, 5);
    assert_eq!(node_of(&right.left).data.key, 3);
    assert_eq!((t.data.height, t.data.rank), (3, 4));

    // 3 on the right of 2 only: the left side leans right, 3 goes on top
    let l = make_node(&2u64, &value(2), None, Some(leaf(3))).unwrap();
    let t = regen_avl::balance::rotate_right(&ctx, &l, &5, &value(5), None).unwrap();
    assert_eq!(t.data.key, 3);
    assert_eq!(node_of(&t.left).data.key, 2);
    assert_eq!(node_of(&t.right).data.key, 5);
    assert_eq!((t.data.height, t.data.rank), (2, 3));

    let r = make_node(&8u64, &value(8), Some(leaf(7)), Some(leaf(9))).unwrap();
    let t = regen_avl::balance::rotate_left(&ctx, None, &5, &value(5), &r).unwrap();
    assert_eq!(t.data.key, 8);
    assert_eq!(node_of(&t.right).data.key, 9);
    let left = node_of(&t.left);
    assert_eq!(left.data.key, 5);
    assert_eq!(node_of(&left.right).data.key, 7);

    let r = make_node(&8u64, &value(8), Some(leaf(7)), None).unwrap();
    let t = regen_avl::balance::rotate_left(&ctx, None, &5, &value(5), &r).unwrap();
    assert_eq!(t.data.key, 7);
    assert_eq!(node_of(&t.left).data.key, 5);
    assert_eq!(node_of(&t.right).data.key, 8);

    let mid = make_node(&4u64, &value(4), Some(leaf(3)), Some(leaf(5))).unwrap();
    let t = regen_avl::balance::lift_middle(
        &ctx,
        Some(leaf(1)),
        &2,
        &value(2),
        Some(mid),
        &6,
        &value(6),
        Some(leaf(7)),
    )
    .unwrap();
    let mut keys = Vec::new();
    audit(&NodeRef::MemRef(t.clone()), &mut keys);
    assert_eq!(keys, vec![1, 2, 3, 4, 5, 6, 7]);
    assert_eq!(t.data.key, 4);
    assert_eq!(
        regen_avl::balance::lift_middle(&ctx, None, &2, &value(2), None, &6, &value(6), None)
            .err(),
        Some(StoreError::InvariantViolation)
    );
    let j = regen_avl::balance::join_nodes(&ctx, &2, &value(2), Some(leaf(1)), None).unwrap();
    assert_eq!((j.data.key, j.data.height, j.data.rank), (2, 2, 2));
}

#[test]
fn a_node_is_serialized_after_its_subtrees() {
    let store = SharedStore::default();
    let mut ctx = context(Some(&store));
    let t = tree_of(Arc::new(context(Some(&store))), &[2, 1, 3]);
    let root = node_of(t.root());
    let new_root = root.calc_hash_serialize(&mut ctx, true).unwrap().unwrap();
    assert_eq!(new_root.hash, Some(t.hash()));
    assert_eq!(new_root.left.get_hash(), leaf_hash(1));
    assert!(matches!(new_root.left, NodeRef::HashRef(_)));
    assert!(matches!(new_root.right, NodeRef::HashRef(_)));
    assert_eq!(new_root.data.key, 2);
    assert_eq!(store.len(), 3);
    // with its record there, the node can stay
    assert!(new_root.calc_hash_serialize(&mut ctx, true).unwrap().is_none());
    assert_eq!(store.writes(), 3);

    let (same, changed) =
        regen_avl::hash_serialize::settle(&NodeRef::HashRef(vec![5]), &mut ctx, true).unwrap();
    assert!(!changed);
    assert_eq!(same.get_hash(), vec![5]);
    let (hash_only, changed) = regen_avl::hash_serialize::settle(t.root(), &mut ctx, true).unwrap();
    assert!(changed);
    assert_eq!(hash_only.get_hash(), t.hash());
    assert_eq!(ctx.digest_node(&node_of(&node_of(t.root()).left), &vec![], &vec![]), leaf_hash(1));
}

#[test]
fn equal_subtrees_share_one_record() {
    // the values do not tell the keys apart here, the keys do
    let store = SharedStore::default();
    let mut ctx = context(Some(&store));
    let a = tree_of(Arc::new(context(Some(&store))), &[1, 2, 3]);
    let b = tree_of(Arc::new(context(Some(&store))), &[1, 2, 3]);
    a.root().calc_hash_serialize(&mut ctx, true).unwrap();
    assert_eq!(store.len(), 3);
    b.root().calc_hash_serialize(&mut ctx, true).unwrap();
    assert_eq!(store.len(), 3);
}

#[test]
fn the_root_node_is_read_where_it_is() {
    let store = SharedStore::default();
    let mut ctx = context(Some(&store));
    let t = tree_of(Arc::new(context(Some(&store))), &[2, 1, 3]);
    assert_eq!(t.root_node().unwrap().unwrap().data.key, 2);
    let root = t.root().calc_hash_serialize(&mut ctx, true).unwrap().unwrap();
    let stored = Tree::from_root(Arc::new(context(Some(&store))), root);
    assert_eq!(stored.root_node().unwrap().unwrap().data.key, 2);
    assert!(stored.ctx().store.is_some());
    let empty: Tree<u64, Vec<u8>> = Tree::new(Arc::new(context(None)));
    assert!(empty.root_node().unwrap().is_none());
}
