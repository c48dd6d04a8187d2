use regen_avl::api::{Comparator, DigestFactory, Hasher, NodeRef, Reader, Writer};
use regen_avl::basics::{
    bytes_in_memory, differ_at, numbers_in_memory, same_bytes, Blake2b, Blake2bFactory,
    Lexicographic, LittleEndian, MemStore, NaturalOrder, Plain,
};
use regen_avl::store::{MutableMap, ReadableMap, StoreError};
use regen_avl::tree::Tree;
use std::cmp::Ordering;
use std::sync::Arc;

fn hex(bytes: &[u8]) -> String {
    let mut s = String::new();
    for b in bytes {
        s.push_str(&format!("{:02x}", b));
    }
    s
}

const OF_NOTHING: &str = "786a02f742015903c6c6fd852552d272912f4740e15847618a86e217f71f5419\
d25e1031afee585313896444934eb04b903a685b1448b755d56f701afe9be2ce";

const OF_ABC: &str = "ba80a53f981c4d0d6a2797b69f12f6e94c212f14685ac4b74b12bb6fdbffa2d1\
7d87c5392aab792dc252d5de4533cc9518d38aa8dbf1925ab92386edd4009923";

#[test]
fn blake2b_of_known_inputs() {
    let h = Blake2b::new();
    assert_eq!(hex(&h.result()), OF_NOTHING);
    assert_eq!(h.output_size(), 64);
    let mut h = Blake2b::new();
    h.input(b"abc");
    assert_eq!(hex(&h.result()), OF_ABC);
    assert_eq!(h.result().len(), 64);
}

#[test]
fn input_in_pieces_is_input_at_once() {
    let mut h = Blake2bFactory.new_digest();
    h.hasher.input(b"a");
    h.hasher.input(b"");
    h.hasher.input(b"bc");
    assert_eq!(hex(&h.hasher.result()), OF_ABC);
    // every hasher of the factory starts anew
    assert_eq!(hex(&Blake2bFactory.new_digest().hasher.result()), OF_NOTHING);
}

#[test]
fn numbers_compare_as_numbers() {
    assert_eq!(NaturalOrder.compare(&1, &2), Ordering::Less);
    assert_eq!(NaturalOrder.compare(&2, &2), Ordering::Equal);
    assert_eq!(NaturalOrder.compare(&3, &2), Ordering::Greater);
    assert_eq!(NaturalOrder.compare(&0, &u64::MAX), Ordering::Less);
}

#[test]
fn numbers_are_eight_bytes_lowest_first() {
    assert_eq!(LittleEndian.write(&0x0102), vec![2, 1, 0, 0, 0, 0, 0, 0]);
    assert_eq!(LittleEndian.write(&u64::MAX), vec![0xff; 8]);
    assert_eq!(LittleEndian.read(&[2, 1, 0, 0, 0, 0, 0, 0]), Ok(0x0102));
    for n in [0u64, 1, 255, 256, 1 << 40, u64::MAX] {
        assert_eq!(LittleEndian.read(&LittleEndian.write(&n)), Ok(n));
    }
    assert_eq!(LittleEndian.read(&[1, 2, 3]), Err(StoreError::EncodingError));
    assert_eq!(LittleEndian.read(&[0; 9]), Err(StoreError::EncodingError));
}

#[test]
fn plain_bytes_stay_as_they_are() {
    assert_eq!(Plain.write(&vec![1, 2, 3]), vec![1, 2, 3]);
    assert_eq!(Plain.read(&[1, 2, 3]), Ok(vec![1, 2, 3]));
    assert_eq!(Plain.read(&[]), Ok(Vec::new()));
}

#[test]
fn byte_strings_are_the_same_or_not() {
    assert!(same_bytes(&vec![], &vec![]));
    assert!(same_bytes(&vec![1, 2], &vec![1, 2]));
    assert!(!same_bytes(&vec![1, 2], &vec![1, 3]));
    assert!(!same_bytes(&vec![1, 2], &vec![1]));
    assert!(!same_bytes(&vec![], &vec![0]));
}

#[test]
fn the_store_in_memory_keeps_the_last_write() {
    let mut s = MemStore::new();
    assert_eq!(s.get(&vec![1]), Ok(None));
    assert_eq!(s.has(&vec![1]), Ok(false));
    s.set(&vec![1], &vec![10]).unwrap();
    s.set(&vec![2], &vec![20]).unwrap();
    s.set(&vec![1], &vec![11]).unwrap();
    assert_eq!(s.get(&vec![1]), Ok(Some(vec![11])));
    assert_eq!(s.get(&vec![2]), Ok(Some(vec![20])));
    assert_eq!(s.has(&vec![2]), Ok(true));
    s.delete(&vec![1]).unwrap();
    assert_eq!(s.get(&vec![1]), Ok(None));
    assert_eq!(s.get(&vec![2]), Ok(Some(vec![20])));
    s.delete(&vec![7]).unwrap();
    s.set(&vec![], &vec![]).unwrap();
    assert_eq!(s.get(&vec![]), Ok(Some(vec![])));
}

#[test]
fn a_ready_made_context_carries_a_tree_through_a_commit() {
    let mut ctx = numbers_in_memory();
    let mut t = Tree::new(Arc::new(numbers_in_memory()));
    for k in 1..=50u64 {
        t = t.with(&k, &vec![k as u8; 3]).unwrap();
    }
    assert_eq!(t.hash().len(), 64);
    let root = t.root().calc_hash_serialize(&mut ctx, true).unwrap().unwrap();
    assert_eq!(root.get_hash(), t.hash());
    let stored = Tree::from_root(Arc::new(ctx), root);
    assert!(matches!(stored.root(), NodeRef::HashRef(_)));
    for k in 1..=50u64 {
        assert_eq!(stored.get(&k).unwrap(), Some(vec![k as u8; 3]));
    }
    assert_eq!(stored.get(&51).unwrap(), None);
    let less = stored.without(&25).unwrap();
    assert_eq!(less.get(&25).unwrap(), None);
    assert_eq!(less.get(&26).unwrap(), Some(vec![26; 3]));
    assert_eq!(stored.get(&25).unwrap(), Some(vec![25; 3]));
}

#[test]
fn the_hash_of_a_leaf_is_the_digest_of_key_and_value() {
    let t = Tree::new(Arc::new(numbers_in_memory()));
    let t = t.with(&0x0102, &b"v".to_vec()).unwrap();
    let mut h = Blake2b::new();
    h.input(&[2, 1, 0, 0, 0, 0, 0, 0]);
    h.input(b"v");
    assert_eq!(t.hash(), h.result());
}

#[test]
fn byte_strings_compare_as_in_a_dictionary() {
    let c = |a: &[u8], b: &[u8]| Lexicographic.compare(&a.to_vec(), &b.to_vec());
    assert_eq!(c(b"", b""), Ordering::Equal);
    assert_eq!(c(b"", b"a"), Ordering::Less);
    assert_eq!(c(b"a", b""), Ordering::Greater);
    assert_eq!(c(b"abc", b"abc"), Ordering::Equal);
    assert_eq!(c(b"ab", b"abc"), Ordering::Less);
    assert_eq!(c(b"abd", b"abc"), Ordering::Greater);
    assert_eq!(c(b"b", b"abc"), Ordering::Greater);
    assert_eq!(c(&[0xff], &[0x00, 0xff]), Ordering::Greater);
    assert_eq!(c(&[0x7f], &[0x80]), Ordering::Less);
    assert_eq!(differ_at(&b"abc".to_vec(), &b"abd".to_vec()), 2);
    assert_eq!(differ_at(&b"ab".to_vec(), &b"abd".to_vec()), 2);
    assert_eq!(differ_at(&b"".to_vec(), &b"abd".to_vec()), 0);
    assert_eq!(differ_at(&b"x".to_vec(), &b"x".to_vec()), 1);
}

#[test]
fn a_tree_of_byte_strings_commits_and_reads_back() {
    let words = ["pear", "apple", "fig", "plum", "apricot", "peach", "", "a"];
    let mut t = Tree::new(Arc::new(bytes_in_memory()));
    for w in words {
        t = t.with(&w.as_bytes().to_vec(), &w.to_uppercase().into_bytes()).unwrap();
    }
    let mut ctx = bytes_in_memory();
    let root = t.root().commit(&mut ctx).unwrap();
    assert!(matches!(root, NodeRef::HashRef(_)));
    assert_eq!(root.get_hash(), t.hash());
    // committing what is committed gives the same reference and writes nothing new
    let again = root.commit(&mut ctx).unwrap();
    assert_eq!(again.get_hash(), root.get_hash());
    let none: NodeRef<Vec<u8>, Vec<u8>> = NodeRef::NoRef;
    assert!(matches!(none.commit(&mut ctx).unwrap(), NodeRef::NoRef));
    let stored = Tree::from_root(Arc::new(ctx), root);
    for w in words {
        let loud = w.to_uppercase().into_bytes();
        assert_eq!(stored.get(&w.as_bytes().to_vec()).unwrap(), Some(loud));
    }
    assert_eq!(stored.get(&b"cherry".to_vec()).unwrap(), None);
    assert_eq!(stored.hash(), t.hash());
}
