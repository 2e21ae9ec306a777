use cowbtree::btree::BTree;
use cowbtree::codec::{decode_node, encode_node, node_used_size};
use cowbtree::errors::BTreeError;
use cowbtree::node::{Entry, Node};
use cowbtree::planner::{merge_nodes, should_merge, split_node};
use cowbtree::store::MemStore;

fn kv(s: &str) -> Vec<u8> {
    s.as_bytes().to_vec()
}

fn num_key(i: u32) -> Vec<u8> {
    format!("{:08}", i).into_bytes()
}

fn leaf(pairs: &[(&[u8], &[u8])]) -> Node {
    let entries = pairs
        .iter()
        .map(|(k, v)| Entry { key: k.to_vec(), val: v.to_vec(), ptr: 0 })
        .collect();
    Node { kind: cowbtree::node::KIND_LEAF, entries }
}

#[test]
fn empty_tree_lookup_and_delete() {
    let mut t = BTree::new_empty(MemStore::new());
    assert_eq!(t.current_root(), 0);
    assert_eq!(t.lookup(&kv("a")).unwrap(), None);
    assert_eq!(t.delete(&kv("a")).unwrap(), false);
    assert_eq!(t.current_root(), 0);
}

#[test]
fn scenario_insert_then_lookup() {
    let mut t = BTree::new_empty(MemStore::new());
    t.insert(&kv("a"), &kv("1")).unwrap();
    assert_eq!(t.lookup(&kv("a")).unwrap(), Some(kv("1")));
    assert_eq!(t.lookup(&kv("b")).unwrap(), None);
    assert_ne!(t.current_root(), 0);
}

#[test]
fn insert_overwrites_value() {
    let mut t = BTree::new_empty(MemStore::new());
    t.insert(&kv("k"), &kv("old")).unwrap();
    t.insert(&kv("k"), &kv("new")).unwrap();
    assert_eq!(t.lookup(&kv("k")).unwrap(), Some(kv("new")));
}

#[test]
fn scenario_bulk_sequential_inserts() {
    let mut t = BTree::new_empty(MemStore::new());
    let val = vec![7u8; 100];
    for i in 0..10_000u32 {
        t.insert(&num_key(i), &val).unwrap();
    }
    assert!(t.height > 1);
    for i in 0..10_000u32 {
        assert_eq!(t.lookup(&num_key(i)).unwrap(), Some(val.clone()), "key {}", i);
    }
}

#[test]
fn scenario_max_sizes_and_oversize_rejection() {
    let mut t = BTree::new_empty(MemStore::new());
    let big_key = vec![1u8; 1000];
    let big_val = vec![2u8; 3000];
    t.insert(&big_key, &big_val).unwrap();
    assert_eq!(t.lookup(&big_key).unwrap(), Some(big_val));
    let root_before = t.current_root();
    let too_big_val = vec![3u8; 3001];
    assert_eq!(t.insert(&kv("x"), &too_big_val), Err(BTreeError::OversizedValue));
    assert_eq!(t.current_root(), root_before);
    let too_big_key = vec![4u8; 1001];
    assert_eq!(t.insert(&too_big_key, &kv("v")), Err(BTreeError::OversizedKey));
    assert_eq!(t.current_root(), root_before);
}

#[test]
fn scenario_delete_range() {
    let mut t = BTree::new_empty(MemStore::new());
    for i in 1..100u32 {
        t.insert(&num_key(i), &num_key(i)).unwrap();
    }
    for i in 50..=60u32 {
        assert_eq!(t.delete(&num_key(i)).unwrap(), true);
    }
    for i in 1..100u32 {
        let found = t.lookup(&num_key(i)).unwrap();
        if (50..=60).contains(&i) {
            assert_eq!(found, None, "key {} should be gone", i);
        } else {
            assert_eq!(found, Some(num_key(i)), "key {} should remain", i);
        }
    }
}

#[test]
fn delete_then_repeat_reports_absent() {
    let mut t = BTree::new_empty(MemStore::new());
    t.insert(&kv("a"), &kv("1")).unwrap();
    t.insert(&kv("b"), &kv("2")).unwrap();
    assert_eq!(t.delete(&kv("a")).unwrap(), true);
    assert_eq!(t.lookup(&kv("a")).unwrap(), None);
    assert_eq!(t.delete(&kv("a")).unwrap(), false);
    assert_eq!(t.lookup(&kv("b")).unwrap(), Some(kv("2")));
}

#[test]
fn delete_absent_leaves_tree_identical() {
    let mut t = BTree::new_empty(MemStore::new());
    for i in 0..50u32 {
        t.insert(&num_key(i), &num_key(i)).unwrap();
    }
    let root_before = t.current_root();
    let pages_before = t.store.slots.len();
    let pending_before = t.store.pending.len();
    assert_eq!(t.delete(&kv("no such key")).unwrap(), false);
    assert_eq!(t.current_root(), root_before);
    assert_eq!(t.store.slots.len(), pages_before);
    assert_eq!(t.store.pending.len(), pending_before);
}

#[test]
fn delete_last_key_empties_tree() {
    let mut t = BTree::new_empty(MemStore::new());
    t.insert(&kv("only"), &kv("v")).unwrap();
    assert_eq!(t.delete(&kv("only")).unwrap(), true);
    assert_eq!(t.current_root(), 0);
    assert_eq!(t.lookup(&kv("only")).unwrap(), None);
}

#[test]
fn codec_round_trip_is_byte_identical() {
    let n = leaf(&[(b"alpha", b"1"), (b"beta", b"22"), (b"gamma", b"333")]);
    let image = encode_node(&n);
    assert_eq!(image.len(), node_used_size(&n));
    let decoded = decode_node(&image).unwrap();
    let image2 = encode_node(&decoded);
    assert_eq!(image, image2);
}

#[test]
fn codec_header_layout_is_little_endian() {
    let n = leaf(&[(b"k", b"v")]);
    let image = encode_node(&n);
    assert_eq!(image[0], 2); // leaf kind tag
    assert_eq!(image[1], 0);
    assert_eq!(image[2], 1); // one key
    assert_eq!(image[3], 0);
    // pointer (8 bytes of zero), offset 4 + 1 + 1 = 6, then the record
    assert_eq!(&image[4..12], &[0u8; 8]);
    assert_eq!(image[12], 6);
    assert_eq!(image[13], 0);
    assert_eq!(&image[14..18], &[1, 0, 1, 0]);
    assert_eq!(image[18], b'k');
    assert_eq!(image[19], b'v');
}

#[test]
fn codec_rejects_corrupt_buffers() {
    assert!(decode_node(&vec![1, 2]).is_err());
    let mut garbage = vec![0u8; 64];
    garbage[0] = 9; // unknown kind tag
    assert!(decode_node(&garbage).is_err());
}

#[test]
fn split_keeps_order_and_page_bound() {
    let big = vec![9u8; 900];
    let mut pairs: Vec<(Vec<u8>, Vec<u8>)> = Vec::new();
    for i in 0..8u32 {
        pairs.push((num_key(i), big.clone()));
    }
    let entries = pairs
        .iter()
        .map(|(k, v)| Entry { key: k.clone(), val: v.clone(), ptr: 0 })
        .collect();
    let n = Node { kind: cowbtree::node::KIND_LEAF, entries };
    assert!(node_used_size(&n) > 4096);
    let parts = split_node(&n);
    assert!(parts.len() >= 2 && parts.len() <= 3);
    let mut rebuilt: Vec<Vec<u8>> = Vec::new();
    for p in &parts {
        assert!(node_used_size(p) <= 4096);
        assert!(!p.entries.is_empty());
        for e in &p.entries {
            rebuilt.push(e.key.clone());
        }
    }
    let original: Vec<Vec<u8>> = pairs.iter().map(|(k, _)| k.clone()).collect();
    assert_eq!(rebuilt, original);
}

#[test]
fn merge_concatenates_and_fits() {
    let l = leaf(&[(b"a", b"1"), (b"b", b"2")]);
    let r = leaf(&[(b"c", b"3")]);
    assert!(should_merge(&l, &r));
    let m = merge_nodes(&l, &r);
    assert!(node_used_size(&m) <= 4096);
    let keys: Vec<&[u8]> = m.entries.iter().map(|e| e.key.as_slice()).collect();
    assert_eq!(keys, vec![b"a".as_slice(), b"b".as_slice(), b"c".as_slice()]);
}

#[test]
fn should_merge_rejects_oversized_pair() {
    let big = vec![5u8; 2500];
    let l = leaf(&[(b"a", big.as_slice())]);
    let r = leaf(&[(b"b", big.as_slice())]);
    assert!(!should_merge(&l, &r));
}

#[test]
fn merge_triggering_deletes_keep_remaining_keys() {
    let mut t = BTree::new_empty(MemStore::new());
    let val = vec![6u8; 100];
    for i in 0..400u32 {
        t.insert(&num_key(i), &val).unwrap();
    }
    assert!(t.height >= 1);
    for i in 100..250u32 {
        assert_eq!(t.delete(&num_key(i)).unwrap(), true);
    }
    for i in 0..400u32 {
        let found = t.lookup(&num_key(i)).unwrap();
        if (100..250).contains(&i) {
            assert_eq!(found, None, "key {} should be gone", i);
        } else {
            assert_eq!(found, Some(val.clone()), "key {} should remain", i);
        }
    }
}

#[test]
fn node_accessors_check_bounds() {
    let mut n = leaf(&[(b"a", b"1")]);
    n.entries[0].ptr = 77;
    assert_eq!(n.b_type(), 2);
    assert_eq!(n.n_keys(), 1);
    assert_eq!(n.get_ptr(0), Ok(77));
    assert_eq!(n.get_ptr(1), Err(BTreeError::IndexOutOfBounds));
    assert_eq!(n.set_ptr(0, 99), Ok(()));
    assert_eq!(n.get_ptr(0), Ok(99));
    assert_eq!(n.set_ptr(5, 1), Err(BTreeError::IndexOutOfBounds));
}

#[test]
fn error_messages_name_the_kind() {
    assert_eq!(
        BTreeError::IndexOutOfBounds.message(),
        "the requested index is out of bounds"
    );
    assert!(BTreeError::OversizedKey.message().contains("key"));
    assert!(BTreeError::OversizedValue.message().contains("value"));
    assert!(BTreeError::PageStoreFailure.message().contains("store"));
}

#[test]
fn superseded_pages_are_queued_not_reused() {
    let mut t = BTree::new_empty(MemStore::new());
    t.insert(&kv("a"), &kv("1")).unwrap();
    let first_root = t.current_root();
    t.insert(&kv("b"), &kv("2")).unwrap();
    assert_ne!(t.current_root(), first_root);
    assert!(t.store.pending.contains(&first_root));
    assert!(t.store.slots.len() >= 2);
}
