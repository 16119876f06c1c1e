use rustdb::engine::DbEngine;
use rustdb::errors::DbError;
use rustdb::node::{BTreeNode, MAX_KEYS, MIN_DEGREE, PAGE_SIZE};

fn open_fresh(name: &str) -> DbEngine {
    let img = DbEngine::create_db();
    let mut e = DbEngine::new();
    e.use_db(name, img).unwrap();
    e
}

fn get_str(e: &DbEngine, key: &str) -> Option<String> {
    e.get(key).unwrap().map(|v| String::from_utf8(v).unwrap())
}

/// Walk the tree and collect every node, paired with its depth.
fn collect_nodes(e: &DbEngine, off: u64, depth: usize, out: &mut Vec<(BTreeNode, usize)>) {
    let node = e.load_node(off).unwrap();
    let children = node.child_page_offsets.clone();
    out.push((node, depth));
    for c in children {
        collect_nodes(e, c, depth + 1, out);
    }
}

fn in_order_keys(e: &DbEngine, off: u64, out: &mut Vec<Vec<u8>>) {
    let node = e.load_node(off).unwrap();
    if node.is_leaf {
        for k in node.keys {
            out.push(k);
        }
    } else {
        for i in 0..node.keys.len() {
            in_order_keys(e, node.child_page_offsets[i], out);
            out.push(node.keys[i].clone());
        }
        in_order_keys(e, node.child_page_offsets[node.keys.len()], out);
    }
}

#[test]
fn create_db_image_layout() {
    let img = DbEngine::create_db();
    assert_eq!(img.len(), 2 * PAGE_SIZE);
    assert_eq!(&img[0..4], b"RDBX");
    assert!(img[4..8].iter().all(|&b| b == 0));
    assert_eq!(&img[8..16], &(PAGE_SIZE as u64).to_le_bytes());
    let root = BTreeNode::deserialize(PAGE_SIZE as u64, &img[PAGE_SIZE..2 * PAGE_SIZE]).unwrap();
    assert!(root.is_leaf);
    assert!(root.keys.is_empty());
}

#[test]
fn use_db_reads_root_pointer_and_name() {
    let e = open_fresh("x");
    assert_eq!(e.root_offset, PAGE_SIZE as u64);
    assert_eq!(e.active_path(), "x.db");
}

#[test]
fn use_db_rejects_bad_magic() {
    let mut img = DbEngine::create_db();
    img[0] = b'Z';
    let mut e = DbEngine::new();
    assert_eq!(e.use_db("x", img).unwrap_err(), DbError::BadMagic);
    let mut e2 = DbEngine::new();
    assert_eq!(e2.use_db("x", vec![1, 2, 3]).unwrap_err(), DbError::BadMagic);
}

#[test]
fn get_without_open_database() {
    let e = DbEngine::new();
    assert_eq!(e.get("k").unwrap_err(), DbError::NoActiveDatabase);
}

#[test]
fn set_without_open_database() {
    let mut e = DbEngine::new();
    assert_eq!(e.set("k", "v").unwrap_err(), DbError::NoActiveDatabase);
}

#[test]
fn single_set_and_get() {
    let mut e = open_fresh("x");
    e.set("alpha", "1").unwrap();
    assert_eq!(get_str(&e, "alpha"), Some("1".to_string()));
    assert_eq!(get_str(&e, "beta"), None);
}

#[test]
fn empty_value_is_kept() {
    let mut e = open_fresh("x");
    e.set("k", "").unwrap();
    assert_eq!(get_str(&e, "k"), Some("".to_string()));
}

#[test]
fn empty_key_is_permitted_and_sorts_first() {
    let mut e = open_fresh("x");
    e.set("b", "2").unwrap();
    e.set("", "0").unwrap();
    e.set("a", "1").unwrap();
    assert_eq!(get_str(&e, ""), Some("0".to_string()));
    let mut keys = Vec::new();
    in_order_keys(&e, e.root_offset, &mut keys);
    assert_eq!(keys[0], b"".to_vec());
}

#[test]
fn overwrite_keeps_latest_value() {
    let mut e = open_fresh("x");
    e.set("k", "v1").unwrap();
    e.set("k", "v2").unwrap();
    assert_eq!(get_str(&e, "k"), Some("v2".to_string()));
    let mut keys = Vec::new();
    in_order_keys(&e, e.root_offset, &mut keys);
    assert_eq!(keys.len(), 1, "overwrite must not duplicate the key");
}

#[test]
fn value_with_spaces() {
    let mut e = open_fresh("x");
    e.set("greeting", "hello world").unwrap();
    assert_eq!(get_str(&e, "greeting"), Some("hello world".to_string()));
}

#[test]
fn sixth_insert_splits_the_root() {
    let mut e = open_fresh("x");
    for (k, v) in [("a", "1"), ("b", "2"), ("c", "3"), ("d", "4"), ("e", "5")] {
        e.set(k, v).unwrap();
    }
    let root_before = e.load_node(e.root_offset).unwrap();
    assert!(root_before.is_leaf);
    assert_eq!(root_before.keys.len(), MAX_KEYS);
    e.set("f", "6").unwrap();
    // the on-disk root page's leaf flag must now read 0 (internal)
    assert_eq!(e.image[e.root_offset as usize], 0);
    let root = e.load_node(e.root_offset).unwrap();
    assert!(!root.is_leaf);
    assert_eq!(root.keys.len(), 1, "one median key in the new root");
    assert_eq!(root.child_page_offsets.len(), 2);
    let mut nodes = Vec::new();
    collect_nodes(&e, e.root_offset, 0, &mut nodes);
    let leaf_depths: Vec<usize> =
        nodes.iter().filter(|(n, _)| n.is_leaf).map(|&(_, d)| d).collect();
    assert!(leaf_depths.iter().all(|&d| d == 1), "height-2 tree");
    for (k, v) in [("a", "1"), ("b", "2"), ("c", "3"), ("d", "4"), ("e", "5"), ("f", "6")] {
        assert_eq!(get_str(&e, k), Some(v.to_string()));
    }
}

#[test]
fn persistence_across_reopen() {
    let mut e = open_fresh("x");
    for (k, v) in [("a", "1"), ("b", "2"), ("c", "3"), ("d", "4"), ("e", "5"), ("f", "6")] {
        e.set(k, v).unwrap();
    }
    // what an exit and restart would replay: the image bytes alone
    let saved = e.image.clone();
    let mut e2 = DbEngine::new();
    e2.use_db("x", saved).unwrap();
    assert_eq!(get_str(&e2, "c"), Some("3".to_string()));
    assert_eq!(get_str(&e2, "f"), Some("6".to_string()));
}

#[test]
fn hundred_keys_sorted_and_retrievable() {
    let mut e = open_fresh("x");
    // distinct keys in a scrambled deterministic order
    let mut state: u64 = 0x2545_f491_4f6c_dd1d;
    let mut pairs: Vec<(String, String)> = Vec::new();
    let mut order: Vec<usize> = (0..100).collect();
    for i in (1..100usize).rev() {
        state = state.wrapping_mul(6364136223846793005).wrapping_add(1442695040888963407);
        let j = (state >> 33) as usize % (i + 1);
        order.swap(i, j);
    }
    for &i in &order {
        let k = format!("key{:03}", i);
        let v = format!("val{}", i);
        e.set(&k, &v).unwrap();
        pairs.push((k, v));
    }
    // every key reads back its value
    for (k, v) in &pairs {
        assert_eq!(get_str(&e, k), Some(v.clone()));
    }
    assert_eq!(get_str(&e, "never-inserted"), None);
    // an in-order walk yields all keys in strict byte-wise order
    let mut keys = Vec::new();
    in_order_keys(&e, e.root_offset, &mut keys);
    assert_eq!(keys.len(), 100);
    for w in keys.windows(2) {
        assert!(w[0] < w[1], "keys out of order: {:?} !< {:?}", w[0], w[1]);
    }
    let expected: Vec<Vec<u8>> =
        (0..100).map(|i| format!("key{:03}", i).into_bytes()).collect();
    assert_eq!(keys, expected);
}

#[test]
fn tree_invariants_hold_after_many_inserts() {
    let mut e = open_fresh("x");
    for i in 0..100 {
        let k = format!("{:03}", (i * 37) % 100);
        e.set(&k, "v").unwrap();
    }
    let mut nodes = Vec::new();
    collect_nodes(&e, e.root_offset, 0, &mut nodes);
    let max_depth = nodes.iter().map(|&(_, d)| d).max().unwrap();
    for (node, depth) in &nodes {
        // order: keys strictly increasing byte-wise
        for w in node.keys.windows(2) {
            assert!(w[0] < w[1]);
        }
        // occupancy
        assert!(node.keys.len() <= MAX_KEYS);
        if node.offset != e.root_offset {
            assert!(node.keys.len() >= MIN_DEGREE - 1);
        }
        if !node.is_leaf {
            assert_eq!(node.child_page_offsets.len(), node.keys.len() + 1);
            // separation: everything under child i stays left of keys[i],
            // everything under child i+1 stays right of it
            for i in 0..node.keys.len() {
                let mut left = Vec::new();
                in_order_keys(&e, node.child_page_offsets[i], &mut left);
                for k in &left {
                    assert!(k < &node.keys[i]);
                }
                let mut right = Vec::new();
                in_order_keys(&e, node.child_page_offsets[i + 1], &mut right);
                for k in &right {
                    assert!(k > &node.keys[i]);
                }
            }
        }
        // balance: every leaf sits at the same depth
        if node.is_leaf {
            assert_eq!(*depth, max_depth);
        }
    }
}

#[test]
fn load_node_rejects_header_and_unaligned_offsets() {
    let e = open_fresh("x");
    assert_eq!(e.load_node(0).unwrap_err(), DbError::CorruptPage);
    assert_eq!(e.load_node(17).unwrap_err(), DbError::CorruptPage);
    assert_eq!(
        e.load_node(100 * PAGE_SIZE as u64).unwrap_err(),
        DbError::IoFailure
    );
}

#[test]
fn read_value_at_rejects_out_of_range_offset() {
    let e = open_fresh("x");
    assert_eq!(e.read_value_at(u64::MAX).unwrap_err(), DbError::IoFailure);
    assert_eq!(
        e.read_value_at(e.image.len() as u64).unwrap_err(),
        DbError::IoFailure
    );
}

#[test]
fn append_record_then_read_value() {
    let mut e = open_fresh("x");
    let d = e.append_record(&b"k".to_vec(), &b"payload".to_vec()).unwrap();
    assert_eq!(d, 2 * PAGE_SIZE as u64);
    assert_eq!(e.read_value_at(d).unwrap(), b"payload".to_vec());
}

#[test]
fn oversized_key_reports_encode_too_large() {
    let mut e = open_fresh("x");
    let big = "a".repeat(PAGE_SIZE);
    assert_eq!(e.set(&big, "v").unwrap_err(), DbError::EncodeTooLarge);
}

#[test]
fn multibyte_keys_and_values_round_trip() {
    let mut e = open_fresh("x");
    e.set("caf\u{e9}", "cr\u{e8}me").unwrap();
    assert_eq!(get_str(&e, "caf\u{e9}"), Some("cr\u{e8}me".to_string()));
}
