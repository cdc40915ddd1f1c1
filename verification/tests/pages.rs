use pagedb::row::encode;
use pagedb::tree::BTreeInternalNode;
use pagedb::tree::BTreeLeafNode;
use pagedb::tree::BTreeNode;
use pagedb::tree::NodeType;
use pagedb::tree::KC;
use pagedb::tree::KV;
use pagedb::tree::INTERNAL_MAX_CELLS;
use pagedb::tree::NODE_MAX_CELLS;
use pagedb::PAGE_SIZE;

fn leaf_with_one_cell() -> BTreeLeafNode {
    let row = encode(1, b"foo", b"bar").unwrap();
    BTreeLeafNode {
        is_root: false,
        parent: 0,
        key_values: vec![KV { key: 1, value: row }],
    }
}

#[test]
fn test_serialize() {
    let node = BTreeNode::Leaf(leaf_with_one_cell());
    let mut buf = vec![];
    node.serialize(&mut buf);
    assert_eq!(buf.len(), PAGE_SIZE);
    // header: leaf tag, no root flag, parent 0, one cell
    assert_eq!(&buf[0..10], &[0, 0, 0, 0, 0, 0, 1, 0, 0, 0]);
    // first cell: key 1, then the row
    assert_eq!(&buf[10..14], &[1, 0, 0, 0]);
    assert_eq!(&buf[14..18], &[1, 0, 0, 0]);
    assert_eq!(&buf[18..21], b"foo");
}

#[test]
fn test_leaf_round_trip() {
    let row_a = encode(3, b"alice", b"alice@example.com").unwrap();
    let row_b = encode(9, b"bob", b"bob@example.com").unwrap();
    let node = BTreeNode::Leaf(BTreeLeafNode {
        is_root: true,
        parent: 7,
        key_values: vec![
            KV { key: 3, value: row_a.clone() },
            KV { key: 9, value: row_b.clone() },
        ],
    });
    let mut buf = vec![];
    node.serialize(&mut buf);
    let back = BTreeNode::deserialize(&buf).unwrap();
    match back {
        BTreeNode::Leaf(leaf) => {
            assert!(leaf.is_root);
            assert_eq!(leaf.parent, 7);
            assert_eq!(leaf.key_values.len(), 2);
            assert_eq!(leaf.key_values[0].key, 3);
            assert_eq!(leaf.key_values[0].value, row_a);
            assert_eq!(leaf.key_values[1].key, 9);
            assert_eq!(leaf.key_values[1].value, row_b);
        }
        BTreeNode::Internal(_) => panic!("expected a leaf"),
    }
}

#[test]
fn test_internal_round_trip() {
    let node = BTreeNode::Internal(BTreeInternalNode {
        is_root: true,
        parent: 0,
        right_child: 4,
        key_children: vec![KC { child: 1, key: 10 }, KC { child: 2, key: 20 }],
    });
    let mut buf = vec![];
    node.serialize(&mut buf);
    assert_eq!(buf.len(), PAGE_SIZE);
    let back = BTreeNode::deserialize(&buf).unwrap();
    match back {
        BTreeNode::Internal(inner) => {
            assert!(inner.is_root);
            assert_eq!(inner.parent, 0);
            assert_eq!(inner.right_child, 4);
            assert_eq!(
                inner.key_children,
                vec![KC { child: 1, key: 10 }, KC { child: 2, key: 20 }]
            );
        }
        BTreeNode::Leaf(_) => panic!("expected an internal page"),
    }
}

#[test]
fn test_deserialize_blank_page_bootstraps_root_leaf() {
    let zeros = vec![0u8; PAGE_SIZE];
    match BTreeNode::deserialize(&zeros).unwrap() {
        BTreeNode::Leaf(leaf) => {
            assert!(leaf.is_root);
            assert_eq!(leaf.parent, 0);
            assert!(leaf.key_values.is_empty());
        }
        BTreeNode::Internal(_) => panic!("expected a leaf"),
    }
    match BTreeNode::deserialize(&[]).unwrap() {
        BTreeNode::Leaf(leaf) => {
            assert!(leaf.is_root);
            assert!(leaf.key_values.is_empty());
        }
        BTreeNode::Internal(_) => panic!("expected a leaf"),
    }
}

#[test]
fn test_deserialize_rejects_unknown_tag() {
    let mut buf = vec![0u8; PAGE_SIZE];
    buf[0] = 2;
    assert!(BTreeNode::deserialize(&buf).is_none());
}

#[test]
fn test_node_type_try_from() {
    assert_eq!(NodeType::try_from(0), Some(NodeType::Leaf));
    assert_eq!(NodeType::try_from(1), Some(NodeType::Internal));
    assert_eq!(NodeType::try_from(2), None);
    assert_eq!(NodeType::try_from(255), None);
}

#[test]
fn test_capacity_constants() {
    assert_eq!(NODE_MAX_CELLS, 13);
    assert_eq!(INTERNAL_MAX_CELLS, 510);
    assert_eq!(BTreeLeafNode::max_cells(), 13);
}

fn leaf_with_keys(keys: &[u32]) -> BTreeLeafNode {
    let key_values = keys
        .iter()
        .map(|k| KV { key: *k, value: encode(*k, b"", b"").unwrap() })
        .collect();
    BTreeLeafNode { is_root: false, parent: 0, key_values }
}

#[test]
fn test_find_insert_position() {
    // on keys [1, 3, 5]: every key before the position is below the
    // target, every key from it on is at least the target
    let leaf = leaf_with_keys(&[1, 3, 5]);
    assert_eq!(leaf.find_insert_position(0), 0);
    assert_eq!(leaf.find_insert_position(1), 0);
    assert_eq!(leaf.find_insert_position(2), 1);
    assert_eq!(leaf.find_insert_position(3), 1);
    assert_eq!(leaf.find_insert_position(4), 2);
    assert_eq!(leaf.find_insert_position(5), 2);
    assert_eq!(leaf.find_insert_position(6), 3);

    let inner = BTreeInternalNode {
        is_root: false,
        parent: 0,
        right_child: 9,
        key_children: vec![KC { child: 1, key: 10 }, KC { child: 2, key: 20 }],
    };
    assert_eq!(inner.find_insert_position(5), 0);
    assert_eq!(inner.find_insert_position(10), 0);
    assert_eq!(inner.find_insert_position(15), 1);
    assert_eq!(inner.find_insert_position(20), 1);
    assert_eq!(inner.find_insert_position(25), 2);
    assert_eq!(inner.find_key(5), 1);
    assert_eq!(inner.find_key(15), 2);
    assert_eq!(inner.find_key(25), 9);
}

#[test]
fn test_leaf_insert_and_max_key() {
    let mut leaf = leaf_with_keys(&[2, 4]);
    assert_eq!(leaf.max_key(), 4);
    assert_eq!(leaf.num_cells(), 2);
    assert!(!leaf.is_max());
    leaf.insert_at(1, 3, encode(3, b"", b"").unwrap());
    assert_eq!(leaf.num_cells(), 3);
    assert_eq!(leaf.key_values[1].key, 3);
    leaf.insert(9, encode(9, b"", b"").unwrap());
    assert_eq!(leaf.max_key(), 9);
}

#[test]
fn test_internal_new_and_insert() {
    let mut inner = BTreeInternalNode::new(true, 0);
    assert!(inner.is_root);
    assert_eq!(inner.num_keys(), 0);
    assert_eq!(inner.max_key(), 0);
    inner.insert(20, 2);
    inner.insert(10, 1);
    assert_eq!(
        inner.key_children,
        vec![KC { child: 1, key: 10 }, KC { child: 2, key: 20 }]
    );
    assert_eq!(inner.max_key(), 20);
}

#[test]
fn test_node_accessors() {
    let leaf = BTreeNode::Leaf(leaf_with_one_cell());
    assert!(!leaf.is_root());
    assert_eq!(leaf.get_parent(), 0);
    assert_eq!(leaf.max_key(), 1);
    let inner = BTreeNode::Internal(BTreeInternalNode {
        is_root: true,
        parent: 3,
        right_child: 4,
        key_children: vec![KC { child: 1, key: 10 }],
    });
    assert!(inner.is_root());
    assert_eq!(inner.get_parent(), 3);
    assert_eq!(inner.max_key(), 10);
}

#[test]
fn test_leaf_set_row_keeps_key() {
    let mut leaf = leaf_with_keys(&[1, 2]);
    let replacement = encode(2, b"new", b"row").unwrap();
    leaf.set_row(1, replacement.clone());
    assert_eq!(leaf.key_values[1].key, 2);
    assert_eq!(leaf.key_values[1].value, replacement);
    assert_eq!(leaf.get_row(1), &replacement);
}
