use kernel_ds::arena::Arena;
use kernel_ds::hashmap::{
    hashmap_digest, hashmap_free, hashmap_insert, hashmap_lookup, hashmap_new,
    hashmap_node_remove, hashmap_replace, HashMap, HashMapNode, HASHMAP_DEFAULT,
};

const KEYS: [&[u8]; 6] = [b"a", b"b", b"ab", b"ba", b"c", b""];

fn same_key(entry: usize, key: usize) -> isize {
    if KEYS[entry] == KEYS[key] {
        1
    } else {
        0
    }
}

fn digest(key: usize) -> usize {
    hashmap_digest(KEYS[key], KEYS[key].len())
}

fn chain<F: Fn(usize, usize) -> isize>(table: &HashMap<F>, bucket: usize) -> Vec<usize> {
    let mut out = Vec::new();
    let mut it = table.buckets[bucket].iter();
    while let Some(q) = it.next() {
        out.push(table.get(q.value).unwrap().entry);
    }
    out
}

#[test]
fn digest_is_the_byte_sum() {
    assert_eq!(hashmap_digest(b"a", 1), 97);
    assert_eq!(hashmap_digest(b"b", 1), 98);
    assert_eq!(hashmap_digest(b"ab", 2), 195);
    assert_eq!(hashmap_digest(b"ba", 2), 195);
    assert_eq!(hashmap_digest(b"ab", 1), 97);
    assert_eq!(hashmap_digest(b"ab", 0), 0);
    assert_eq!(hashmap_digest(b"", 0), 0);
    assert_eq!(hashmap_digest(&[255u8; 1000], 1000), 255_000);
}

#[test]
fn new_table_defaults_to_twenty_buckets() {
    let table = hashmap_new(0, same_key);
    assert_eq!(HASHMAP_DEFAULT, 20);
    assert_eq!(table.buckets_nr, 20);
    assert_eq!(table.buckets.len(), 20);
    assert_eq!(table.count, 0);
    let table = hashmap_new(4, same_key);
    assert_eq!(table.buckets_nr, 4);
    assert_eq!(table.buckets.len(), 4);
    assert!(table.buckets.iter().all(|q| q.count == 0));
}

#[test]
fn entries_land_in_the_bucket_of_their_digest() {
    let mut table = hashmap_new(4, same_key);
    for key in [0usize, 1, 2] {
        assert_eq!(hashmap_insert(&mut table, digest(key), key), 0);
    }
    assert_eq!(table.count, 3);
    assert_eq!(195 % 4, 3);
    assert_eq!(97 % 4, 1);
    assert_eq!(98 % 4, 2);
    assert_eq!(chain(&table, 0), Vec::<usize>::new());
    assert_eq!(chain(&table, 1), vec![0]);
    assert_eq!(chain(&table, 2), vec![1]);
    assert_eq!(chain(&table, 3), vec![2]);
    for key in [0usize, 1, 2] {
        let node = hashmap_lookup(&table, digest(key), key).unwrap();
        let held: HashMapNode = *table.get(node).unwrap();
        assert_eq!(held.entry, key);
        assert_eq!(held.hash, digest(key));
    }
    // "ba" has the digest of "ab" but is another key
    assert_eq!(digest(3), digest(2));
    assert_eq!(hashmap_lookup(&table, digest(3), 3), None);
    // the right key under the wrong digest is no match either
    assert_eq!(hashmap_lookup(&table, 98, 0), None);
    assert_eq!(hashmap_lookup(&table, 97 + 4, 0), None);
}

#[test]
fn lookup_needs_hash_and_predicate() {
    let mut table = hashmap_new(4, |_entry: usize, _key: usize| -> isize { 1 });
    assert_eq!(hashmap_insert(&mut table, 5, 100), 0);
    assert_eq!(hashmap_insert(&mut table, 9, 200), 0);
    let first = hashmap_lookup(&table, 5, 0).unwrap();
    assert_eq!(table.get(first).unwrap().entry, 100);
    let second = hashmap_lookup(&table, 9, 0).unwrap();
    assert_eq!(table.get(second).unwrap().entry, 200);
    assert_eq!(hashmap_lookup(&table, 1, 0), None);
    assert_eq!(hashmap_lookup(&table, 13, 0), None);
}

#[test]
fn predicate_result_may_be_any_nonzero_value() {
    let mut table = hashmap_new(2, |entry: usize, key: usize| -> isize {
        if entry == key {
            -7
        } else {
            0
        }
    });
    assert_eq!(hashmap_insert(&mut table, 3, 30), 0);
    assert!(hashmap_lookup(&table, 3, 30).is_some());
    assert_eq!(hashmap_lookup(&table, 3, 31), None);
}

#[test]
fn insert_then_lookup_returns_the_inserted_node() {
    let mut table = hashmap_new(4, same_key);
    assert_eq!(hashmap_insert(&mut table, digest(2), 2), 0);
    assert_eq!(hashmap_insert(&mut table, digest(3), 3), 0);
    let node = hashmap_lookup(&table, digest(3), 3).unwrap();
    assert_eq!(table.get(node).unwrap().entry, 3);
    assert_eq!(chain(&table, 3), vec![2, 3]);
    // of two nodes that answer, the one nearer the head is found
    assert_eq!(hashmap_insert(&mut table, digest(2), 2), 0);
    let first = hashmap_lookup(&table, digest(2), 2).unwrap();
    assert_eq!(first, table.buckets[3].iter().next().unwrap().value);
}

#[test]
fn node_remove_makes_lookup_fail_and_drops_count_by_one() {
    let mut table = hashmap_new(4, same_key);
    for key in [0usize, 1, 2, 3, 4] {
        assert_eq!(hashmap_insert(&mut table, digest(key), key), 0);
    }
    assert_eq!(table.count, 5);
    let node = hashmap_lookup(&table, digest(2), 2).unwrap();
    hashmap_node_remove(&mut table, node);
    assert_eq!(table.count, 4);
    assert_eq!(hashmap_lookup(&table, digest(2), 2), None);
    assert!(table.get(node).is_none());
    assert_eq!(chain(&table, 3), vec![3, 4]);
    // the others are still there
    for key in [0usize, 1, 3, 4] {
        let n = hashmap_lookup(&table, digest(key), key).unwrap();
        assert_eq!(table.get(n).unwrap().entry, key);
    }
    // a handle that names no node changes nothing
    hashmap_node_remove(&mut table, node);
    hashmap_node_remove(&mut table, 12345);
    assert_eq!(table.count, 4);
    let total: usize = table.buckets.iter().map(|q| q.count).sum();
    assert_eq!(total, table.count);
}

#[test]
fn replace_overwrites_in_place_or_inserts() {
    let mut table = hashmap_new(4, same_key);
    // on an empty table the key is missing: replace inserts
    assert_eq!(hashmap_replace(&mut table, digest(0), 0, 0), 0);
    assert_eq!(table.count, 1);
    assert_eq!(chain(&table, 1), vec![0]);
    // missing key in a table that holds others: as insert
    assert_eq!(hashmap_replace(&mut table, digest(2), 2, 2), 0);
    assert_eq!(table.count, 2);
    assert_eq!(chain(&table, 3), vec![2]);
    // present key: entry overwritten in place, count unchanged
    let node = hashmap_lookup(&table, digest(2), 2).unwrap();
    assert_eq!(hashmap_replace(&mut table, digest(2), 2, 3), 0);
    assert_eq!(table.count, 2);
    assert_eq!(table.get(node).unwrap().entry, 3);
    assert_eq!(table.get(node).unwrap().hash, 195);
    assert_eq!(chain(&table, 3), vec![3]);
}

#[test]
fn replace_on_missing_key_matches_insert() {
    let mut by_insert = hashmap_new(4, same_key);
    let mut by_replace = hashmap_new(4, same_key);
    for key in [0usize, 2, 4] {
        assert_eq!(hashmap_insert(&mut by_insert, digest(key), key), 0);
        assert_eq!(hashmap_insert(&mut by_replace, digest(key), key), 0);
    }
    let a = hashmap_insert(&mut by_insert, digest(3), 3);
    let b = hashmap_replace(&mut by_replace, digest(3), 3, 3);
    assert_eq!(a, b);
    assert_eq!(by_insert.count, by_replace.count);
    for bucket in 0..4 {
        assert_eq!(chain(&by_insert, bucket), chain(&by_replace, bucket));
    }
}

#[test]
fn table_without_buckets_refuses_everything() {
    let mut table = hashmap_new(4, same_key);
    assert_eq!(hashmap_insert(&mut table, 97, 0), 0);
    hashmap_free(&mut table);
    assert_eq!(table.count, 0);
    assert_eq!(table.buckets_nr, 0);
    assert!(table.buckets.is_empty());
    assert_eq!(hashmap_insert(&mut table, 97, 0), -1);
    assert_eq!(hashmap_replace(&mut table, 97, 0, 0), -1);
    assert_eq!(hashmap_lookup(&table, 97, 0), None);
    hashmap_node_remove(&mut table, 0);
    assert_eq!(table.count, 0);
    hashmap_free(&mut table);
    assert_eq!(table.buckets_nr, 0);
}

#[test]
fn count_is_the_sum_of_the_bucket_lengths() {
    let mut table = hashmap_new(3, |a: usize, b: usize| -> isize { (a == b) as isize });
    let mut nodes = Vec::new();
    for e in 0usize..50 {
        assert_eq!(hashmap_insert(&mut table, e * 7, e), 0);
        nodes.push(hashmap_lookup(&table, e * 7, e).unwrap());
    }
    for (i, node) in nodes.iter().enumerate() {
        if i % 3 == 0 {
            hashmap_node_remove(&mut table, *node);
        }
    }
    assert_eq!(table.count, 50 - 17);
    let total: usize = table.buckets.iter().map(|q| q.count).sum();
    assert_eq!(total, table.count);
    for e in 0usize..50 {
        let found = hashmap_lookup(&table, e * 7, e);
        assert_eq!(found.is_some(), e % 3 != 0);
        if let Some(n) = found {
            assert_eq!(table.get(n).unwrap().hash % 3, (e * 7) % 3);
        }
    }
    // freed slots are handed out again
    for e in 100usize..117 {
        assert_eq!(hashmap_insert(&mut table, e, e), 0);
    }
    assert_eq!(table.count, 50);
}

#[test]
fn arena_hands_out_stable_handles() {
    let mut arena: Arena<u32> = Arena::new();
    let a = arena.insert(10).unwrap();
    let b = arena.insert(20).unwrap();
    let c = arena.insert(30).unwrap();
    assert!(a != b && b != c && a != c);
    assert_eq!(arena.get(b), Some(&20));
    assert_eq!(arena.remove(b), Some(20));
    assert_eq!(arena.get(b), None);
    assert_eq!(arena.remove(b), None);
    assert_eq!(arena.get(a), Some(&10));
    assert_eq!(arena.get(c), Some(&30));
    assert!(arena.set(a, 11));
    assert!(!arena.set(b, 21));
    assert!(!arena.set(99, 1));
    assert_eq!(arena.get(a), Some(&11));
    let d = arena.insert(40).unwrap();
    assert_eq!(d, b);
    assert_eq!(arena.get(d), Some(&40));
    assert_eq!(arena.get(99), None);
}
