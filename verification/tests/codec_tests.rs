use rustdb::errors::DbError;
use rustdb::node::{BTreeNode, PAGE_SIZE};

fn node_with(
    offset: u64,
    is_leaf: bool,
    keys: Vec<&str>,
    data_offsets: Vec<u64>,
    children: Vec<u64>,
) -> BTreeNode {
    BTreeNode {
        offset,
        is_leaf,
        keys: keys.iter().map(|k| k.as_bytes().to_vec()).collect(),
        data_offsets,
        child_page_offsets: children,
    }
}

fn assert_nodes_equal(a: &BTreeNode, b: &BTreeNode) {
    assert_eq!(a.offset, b.offset);
    assert_eq!(a.is_leaf, b.is_leaf);
    assert_eq!(a.keys, b.keys);
    assert_eq!(a.data_offsets, b.data_offsets);
    assert_eq!(a.child_page_offsets, b.child_page_offsets);
}

#[test]
fn leaf_round_trip() {
    let n = node_with(4096, true, vec!["alpha", "beta", "gamma"], vec![10, 20, 30], vec![]);
    let buf = n.serialize().unwrap();
    assert_eq!(buf.len(), PAGE_SIZE);
    let back = BTreeNode::deserialize(4096, &buf).unwrap();
    assert_nodes_equal(&n, &back);
}

#[test]
fn internal_round_trip() {
    let n = node_with(
        8192,
        false,
        vec!["k1", "k2"],
        vec![100, 200],
        vec![4096, 12288, 16384],
    );
    let buf = n.serialize().unwrap();
    let back = BTreeNode::deserialize(8192, &buf).unwrap();
    assert_nodes_equal(&n, &back);
}

#[test]
fn empty_leaf_round_trip() {
    let n = node_with(4096, true, vec![], vec![], vec![]);
    let buf = n.serialize().unwrap();
    let back = BTreeNode::deserialize(4096, &buf).unwrap();
    assert_nodes_equal(&n, &back);
}

#[test]
fn empty_key_round_trip() {
    let n = node_with(4096, true, vec!["", "x"], vec![1, 2], vec![]);
    let buf = n.serialize().unwrap();
    let back = BTreeNode::deserialize(4096, &buf).unwrap();
    assert_nodes_equal(&n, &back);
}

#[test]
fn multibyte_key_round_trip() {
    let n = node_with(4096, true, vec!["caf\u{e9}", "\u{65e5}\u{672c}"], vec![7, 8], vec![]);
    let buf = n.serialize().unwrap();
    let back = BTreeNode::deserialize(4096, &buf).unwrap();
    assert_nodes_equal(&n, &back);
}

#[test]
fn serialize_layout_matches_format() {
    let n = node_with(4096, true, vec!["ab"], vec![0x0102030405060708], vec![]);
    let buf = n.serialize().unwrap();
    assert_eq!(buf[0], 1, "leaf flag");
    assert_eq!(&buf[1..3], &1u16.to_le_bytes(), "key count");
    assert_eq!(&buf[3..7], &2u32.to_le_bytes(), "key length");
    assert_eq!(&buf[7..15], &0x0102030405060708u64.to_le_bytes(), "data offset");
    assert_eq!(&buf[15..17], b"ab", "key bytes");
    assert!(buf[17..].iter().all(|&b| b == 0), "unused middle zeroed");
}

#[test]
fn serialize_internal_packs_children_at_tail() {
    let n = node_with(4096, false, vec!["m"], vec![5], vec![8192, 12288]);
    let buf = n.serialize().unwrap();
    assert_eq!(buf[0], 0, "internal flag");
    assert_eq!(&buf[PAGE_SIZE - 16..PAGE_SIZE - 8], &8192u64.to_le_bytes());
    assert_eq!(&buf[PAGE_SIZE - 8..PAGE_SIZE], &12288u64.to_le_bytes());
}

#[test]
fn serialize_rejects_oversized_key() {
    let big = vec![b'a'; PAGE_SIZE];
    let n = BTreeNode {
        offset: 4096,
        is_leaf: true,
        keys: vec![big],
        data_offsets: vec![1],
        child_page_offsets: vec![],
    };
    assert_eq!(n.serialize().unwrap_err(), DbError::EncodeTooLarge);
}

#[test]
fn deserialize_rejects_bad_leaf_flag() {
    let mut buf = vec![0u8; PAGE_SIZE];
    buf[0] = 7;
    assert_eq!(BTreeNode::deserialize(4096, &buf).unwrap_err(), DbError::CorruptPage);
}

#[test]
fn deserialize_rejects_entry_past_tail() {
    let mut buf = vec![0u8; PAGE_SIZE];
    buf[0] = 1;
    buf[1..3].copy_from_slice(&1u16.to_le_bytes());
    buf[3..7].copy_from_slice(&(PAGE_SIZE as u32).to_le_bytes());
    assert_eq!(BTreeNode::deserialize(4096, &buf).unwrap_err(), DbError::CorruptPage);
}

#[test]
fn deserialize_rejects_non_utf8_key() {
    let n = node_with(4096, true, vec!["ab"], vec![1], vec![]);
    let mut buf = n.serialize().unwrap();
    buf[15] = 0xff;
    buf[16] = 0xfe;
    assert_eq!(BTreeNode::deserialize(4096, &buf).unwrap_err(), DbError::CorruptPage);
}

#[test]
fn deserialize_rejects_children_overlapping_header() {
    let mut buf = vec![0u8; PAGE_SIZE];
    buf[0] = 0;
    // so many keys that the child-offset region would cross byte 3
    buf[1..3].copy_from_slice(&600u16.to_le_bytes());
    assert_eq!(BTreeNode::deserialize(4096, &buf).unwrap_err(), DbError::CorruptPage);
}

#[test]
fn error_messages_name_each_kind() {
    assert_eq!(DbError::AlreadyExists.message(), "database already exists");
    assert_eq!(DbError::NotFound.message(), "database not found");
    assert_eq!(DbError::BadMagic.message(), "bad magic in header");
    assert_eq!(DbError::CorruptPage.message(), "corrupt page");
    assert_eq!(DbError::EncodeTooLarge.message(), "node too large for a page");
    assert_eq!(DbError::IoFailure.message(), "read or write out of bounds");
    assert_eq!(DbError::NoActiveDatabase.message(), "no active database");
}

#[test]
fn byte_order_empty_key_sorts_first() {
    assert!(rustdb::keys::bytes_lt(b"", b"a"));
    assert!(rustdb::keys::bytes_lt(b"", b"\x00"));
    assert!(!rustdb::keys::bytes_lt(b"a", b""));
    assert!(!rustdb::keys::bytes_lt(b"", b""));
}

#[test]
fn byte_order_is_lexicographic() {
    assert!(rustdb::keys::bytes_lt(b"abc", b"abd"));
    assert!(rustdb::keys::bytes_lt(b"ab", b"abc"));
    assert!(!rustdb::keys::bytes_lt(b"abc", b"abc"));
    assert!(!rustdb::keys::bytes_lt(b"b", b"abc"));
    assert!(rustdb::keys::bytes_eq(b"abc", b"abc"));
    assert!(!rustdb::keys::bytes_eq(b"abc", b"abd"));
    assert!(!rustdb::keys::bytes_eq(b"ab", b"abc"));
}

#[test]
fn node_split_moves_upper_half() {
    let mut n = node_with(
        4096,
        true,
        vec!["a", "b", "c", "d", "e"],
        vec![1, 2, 3, 4, 5],
        vec![],
    );
    let (median_key, median_data, right) = n.split(8192);
    assert_eq!(median_key, b"c".to_vec());
    assert_eq!(median_data, 3);
    assert_eq!(n.keys, vec![b"a".to_vec(), b"b".to_vec()]);
    assert_eq!(n.data_offsets, vec![1, 2]);
    assert_eq!(right.offset, 8192);
    assert!(right.is_leaf);
    assert_eq!(right.keys, vec![b"d".to_vec(), b"e".to_vec()]);
    assert_eq!(right.data_offsets, vec![4, 5]);
}

#[test]
fn leaf_insert_keeps_sorted_order_and_overwrites() {
    let mut n = node_with(4096, true, vec!["b", "d"], vec![1, 2], vec![]);
    let updated = n.insert_in_leaf(b"c".to_vec(), 9);
    assert!(!updated);
    assert_eq!(n.keys, vec![b"b".to_vec(), b"c".to_vec(), b"d".to_vec()]);
    assert_eq!(n.data_offsets, vec![1, 9, 2]);
    let updated = n.insert_in_leaf(b"c".to_vec(), 11);
    assert!(updated);
    assert_eq!(n.keys, vec![b"b".to_vec(), b"c".to_vec(), b"d".to_vec()]);
    assert_eq!(n.data_offsets, vec![1, 11, 2]);
}
