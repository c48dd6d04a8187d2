use regen_avl::lru::LRU;

fn k(s: &str) -> Vec<u8> {
    s.as_bytes().to_vec()
}

#[test]
fn the_entry_used_longest_ago_leaves() {
    let mut c = LRU::new(2);
    c.put(k("a"), vec![1]);
    c.put(k("b"), vec![2]);
    assert_eq!(c.get(&k("a")), Some(vec![1]));
    c.put(k("c"), vec![3]);
    assert_eq!(c.len(), 2);
    assert_eq!(c.get(&k("b")), None);
    assert_eq!(c.get(&k("a")), Some(vec![1]));
    assert_eq!(c.get(&k("c")), Some(vec![3]));
}

#[test]
fn without_a_use_the_first_entry_leaves() {
    let mut c = LRU::new(2);
    c.put(k("a"), vec![1]);
    c.put(k("b"), vec![2]);
    c.put(k("c"), vec![3]);
    assert_eq!(c.get(&k("a")), None);
    assert_eq!(c.get(&k("b")), Some(vec![2]));
    assert_eq!(c.get(&k("c")), Some(vec![3]));
    assert_eq!(c.len(), 2);
}

#[test]
fn a_new_cache_is_empty() {
    let mut c = LRU::new(3);
    assert_eq!(c.len(), 0);
    assert_eq!(c.tick(), 0);
    assert_eq!(c.get(&k("a")), None);
    assert_eq!(c.tick(), 0);
}

#[test]
fn every_use_takes_a_tick_and_a_miss_none() {
    let mut c = LRU::new(3);
    c.put(k("a"), vec![1]);
    assert_eq!(c.tick(), 1);
    c.put(k("b"), vec![2]);
    assert_eq!(c.tick(), 2);
    assert_eq!(c.get(&k("a")), Some(vec![1]));
    assert_eq!(c.tick(), 3);
    assert_eq!(c.get(&k("z")), None);
    assert_eq!(c.tick(), 3);
}

#[test]
fn putting_a_present_key_overwrites_and_counts_as_a_use() {
    let mut c = LRU::new(2);
    c.put(k("a"), vec![1]);
    c.put(k("b"), vec![2]);
    c.put(k("a"), vec![9]);
    assert_eq!(c.len(), 2);
    c.put(k("c"), vec![3]);
    // b was used longest ago
    assert_eq!(c.get(&k("b")), None);
    assert_eq!(c.get(&k("a")), Some(vec![9]));
    assert_eq!(c.get(&k("c")), Some(vec![3]));
    assert_eq!(c.len(), 2);
}

#[test]
fn the_order_of_use_decides_who_leaves() {
    let mut c = LRU::new(3);
    c.put(k("a"), vec![1]);
    c.put(k("b"), vec![2]);
    c.put(k("c"), vec![3]);
    assert_eq!(c.get(&k("a")), Some(vec![1]));
    assert_eq!(c.get(&k("b")), Some(vec![2]));
    c.put(k("d"), vec![4]);
    assert_eq!(c.get(&k("c")), None);
    c.put(k("e"), vec![5]);
    assert_eq!(c.get(&k("a")), None);
    assert_eq!(c.get(&k("b")), Some(vec![2]));
    assert_eq!(c.get(&k("d")), Some(vec![4]));
    assert_eq!(c.get(&k("e")), Some(vec![5]));
    assert_eq!(c.len(), 3);
}

#[test]
fn a_cache_of_one_keeps_the_last_entry() {
    let mut c = LRU::new(1);
    c.put(k("a"), vec![1]);
    c.put(k("b"), vec![2]);
    assert_eq!(c.len(), 1);
    assert_eq!(c.get(&k("a")), None);
    assert_eq!(c.get(&k("b")), Some(vec![2]));
}

#[test]
fn a_cache_of_none_keeps_nothing() {
    let mut c = LRU::new(0);
    c.put(k("a"), vec![1]);
    assert_eq!(c.len(), 0);
    assert_eq!(c.get(&k("a")), None);
    assert_eq!(c.tick(), 1);
}

#[test]
fn values_are_kept_as_they_were_put() {
    let mut c = LRU::new(4);
    c.put(Vec::new(), Vec::new());
    c.put(vec![0, 1, 2], vec![0xff; 100]);
    assert_eq!(c.get(&Vec::new()), Some(Vec::new()));
    assert_eq!(c.get(&vec![0, 1, 2]), Some(vec![0xff; 100]));
    assert_eq!(c.get(&vec![0, 1]), None);
}
