use pagedb::pager::FlushError;
use pagedb::pager::InsertError;
use pagedb::pager::OpenError;
use pagedb::pager::Pager;
use pagedb::row::decode;
use pagedb::row::encode;
use pagedb::row::get_id;
use pagedb::table::execute_select;
use pagedb::table::execute_statement;
use pagedb::table::insert;
use pagedb::table::select_all;
use pagedb::table::Cursor;
use pagedb::table::Statement;
use pagedb::table::StatementType;
use pagedb::table::Table;
use pagedb::tree::BTreeInternalNode;
use pagedb::tree::BTreeLeafNode;
use pagedb::tree::BTreeNode;
use pagedb::tree::KC;
use pagedb::tree::KV;
use pagedb::tree::NODE_MAX_CELLS;
use pagedb::PAGE_SIZE;

fn fresh_table() -> Table {
    Table::open(vec![]).unwrap()
}

fn row_for(key: u32) -> Vec<u8> {
    encode(key, format!("user{}", key).as_bytes(), format!("user{}@mail", key).as_bytes())
        .unwrap()
}

fn insert_statement(row: Vec<u8>) -> Statement {
    let mut stmt = Statement::new(StatementType::Insert);
    stmt.row_to_insert = Some(row);
    stmt
}

fn page_bytes(node: &BTreeNode) -> Vec<u8> {
    let mut buf = vec![];
    node.serialize(&mut buf);
    buf
}

#[test]
fn test_page_num() {
    let table = fresh_table();
    assert_eq!(table.page_num(12), 0);
    assert_eq!(table.page_num(13), 0);
    assert_eq!(table.page_num(14), 1);
    assert_eq!(table.page_num(15), 1);
}

#[test]
fn test_bytes_offset() {
    let table = fresh_table();
    assert_eq!(table.bytes_offset(12), 291 * 12);
    assert_eq!(table.bytes_offset(13), 291 * 13);
    assert_eq!(table.bytes_offset(14), 0);
    assert_eq!(table.bytes_offset(15), 291);
}

#[test]
fn test_open_empty_image_bootstraps_root_leaf() {
    let table = fresh_table();
    assert_eq!(table.root_page_num, 0);
    assert_eq!(table.pager.num_pages, 1);
    match table.pager.pages[0].as_ref().unwrap() {
        BTreeNode::Leaf(leaf) => {
            assert!(leaf.is_root);
            assert!(leaf.key_values.is_empty());
        }
        BTreeNode::Internal(_) => panic!("expected a leaf root"),
    }
}

#[test]
fn test_execute_statement_insert_without_row() {
    let mut table = fresh_table();
    let stmt = Statement::new(StatementType::Insert);
    let result = execute_statement(&stmt, &mut table);
    assert!(result.is_err());
    let err = result.err().unwrap();
    assert_eq!(err, InsertError::MissingRecord);
}

#[test]
fn test_execute_statement_insert() {
    let mut table = fresh_table();
    let row = encode(1, b"totem3", b"totem3@totem3.com").unwrap();
    let stmt = insert_statement(row.clone());
    let result = execute_statement(&stmt, &mut table);
    assert!(result.is_ok());
    let mut buf: Vec<u8> = vec![];
    match table.pager.pages[0].as_ref() {
        Some(BTreeNode::Leaf(leaf)) => {
            if let Some(kv) = leaf.key_values.first() {
                buf = kv.value.clone();
            }
        }
        _ => panic!("expected the root leaf"),
    }
    assert_eq!(buf, row);
}

#[test]
fn test_execute_select() {
    let mut table = fresh_table();
    let stmt = Statement::new(StatementType::Select);
    let result = execute_statement(&stmt, &mut table);
    assert!(result.is_ok());
    assert!(result.unwrap().is_empty());
}

#[test]
fn test_execute_insert_and_select() {
    let mut table = fresh_table();
    let row = encode(1, b"totem3", b"totem3@totem3.com").unwrap();
    let stmt = insert_statement(row.clone());
    let result = execute_statement(&stmt, &mut table);
    assert!(result.is_ok());
    let stmt = Statement::new(StatementType::Select);
    let result = execute_statement(&stmt, &mut table);
    assert!(result.is_ok());
    assert_eq!(result.unwrap(), vec![row]);
}

#[test]
fn test_execute_statement_insert_into_full_table() {
    let mut table = fresh_table();
    for key in 1..=(NODE_MAX_CELLS as u32) {
        let stmt = insert_statement(row_for(key));
        assert!(execute_statement(&stmt, &mut table).is_ok());
    }
    let stmt = insert_statement(row_for(NODE_MAX_CELLS as u32 + 1));
    let result = execute_statement(&stmt, &mut table);
    assert!(result.is_ok());
}

#[test]
fn test_select_single_record() {
    let mut table = fresh_table();
    insert(&mut table, 1, encode(1, b"foo", b"bar").unwrap()).unwrap();
    let rows = select_all(&table);
    assert_eq!(rows.len(), 1);
    let (id, username, email) = decode(&rows[0]);
    assert_eq!(id, 1);
    assert_eq!(username, b"foo".to_vec());
    assert_eq!(email, b"bar".to_vec());
}

#[test]
fn test_duplicate_key_leaves_table_unchanged() {
    let mut table = fresh_table();
    insert(&mut table, 5, encode(5, b"a", b"b").unwrap()).unwrap();
    let before = select_all(&table);
    let second = insert(&mut table, 5, encode(5, b"x", b"y").unwrap());
    assert_eq!(second, Err(InsertError::DuplicateKey));
    let after = select_all(&table);
    assert_eq!(before, after);
    assert_eq!(after.len(), 1);
    match table.pager.pages[0].as_ref().unwrap() {
        BTreeNode::Leaf(leaf) => assert_eq!(leaf.key_values.len(), 1),
        BTreeNode::Internal(_) => panic!("expected the root leaf"),
    }
}

#[test]
fn test_duplicate_key_on_full_leaf() {
    let mut table = fresh_table();
    for key in 1..=(NODE_MAX_CELLS as u32) {
        insert(&mut table, key, row_for(key)).unwrap();
    }
    let before = select_all(&table);
    let r = insert(&mut table, 7, row_for(7));
    assert_eq!(r, Err(InsertError::DuplicateKey));
    assert_eq!(select_all(&table), before);
}

#[test]
fn test_first_split_makes_internal_root() {
    let mut table = fresh_table();
    for key in 1..=(NODE_MAX_CELLS as u32 + 1) {
        insert(&mut table, key, row_for(key)).unwrap();
    }
    // the root page number changed: the new root is a fresh page
    assert_eq!(table.root_page_num, 2);
    assert_eq!(table.pager.num_pages, 3);
    match table.pager.pages[2].as_ref().unwrap() {
        BTreeNode::Internal(root) => {
            assert!(root.is_root);
            assert_eq!(root.key_children.len(), 1);
            assert_eq!(root.key_children[0], KC { child: 0, key: 7 });
            assert_eq!(root.right_child, 1);
        }
        BTreeNode::Leaf(_) => panic!("expected an internal root"),
    }
    // both children are leaves of seven cells pointing at the new root
    for page in [0usize, 1usize] {
        match table.pager.pages[page].as_ref().unwrap() {
            BTreeNode::Leaf(leaf) => {
                assert!(!leaf.is_root);
                assert_eq!(leaf.parent, 2);
                assert_eq!(leaf.key_values.len(), 7);
            }
            BTreeNode::Internal(_) => panic!("expected a leaf child"),
        }
    }
    let rows = select_all(&table);
    let ids: Vec<u32> = rows.iter().map(|r| get_id(r)).collect();
    let expected: Vec<u32> = (1..=(NODE_MAX_CELLS as u32 + 1)).collect();
    assert_eq!(ids, expected);
}

#[test]
fn test_scan_is_ascending_for_arbitrary_insert_order() {
    // shuffled within each block so that every split falls on the
    // rightmost leaf, the one case the engine hands over to the parent
    // completely
    let mut table = fresh_table();
    let keys = [
        7u32, 3, 11, 1, 9, 13, 5, 2, 12, 6, 10, 4, 8, 14, 16, 15, 18, 17, 20, 19, 21, 23, 22,
        25, 24, 27, 26,
    ];
    for key in keys {
        insert(&mut table, key, row_for(key)).unwrap();
    }
    let rows = select_all(&table);
    assert_eq!(rows.len(), keys.len());
    let ids: Vec<u32> = rows.iter().map(|r| get_id(r)).collect();
    for pair in ids.windows(2) {
        assert!(pair[0] < pair[1]);
    }
    let expected: Vec<u32> = (1..=27).collect();
    assert_eq!(ids, expected);
}

#[test]
fn test_scan_stays_ascending_after_middle_leaf_split() {
    // splitting a leaf that is not the parent's rightmost child leaves
    // the new right half without a parent cell, so the scan ends early —
    // but what it yields is still strictly ascending
    let mut table = fresh_table();
    for key in (1..=13u32).map(|k| k * 10) {
        insert(&mut table, key, row_for(key)).unwrap();
    }
    insert(&mut table, 140, row_for(140)).unwrap();
    for key in 11..=16u32 {
        insert(&mut table, key, row_for(key)).unwrap();
    }
    insert(&mut table, 17, row_for(17)).unwrap();
    let rows = select_all(&table);
    assert!(!rows.is_empty());
    let ids: Vec<u32> = rows.iter().map(|r| get_id(r)).collect();
    for pair in ids.windows(2) {
        assert!(pair[0] < pair[1]);
    }
}

#[test]
fn test_close_then_reopen_preserves_records() {
    let mut table = fresh_table();
    for key in [4u32, 1, 3, 2] {
        insert(&mut table, key, row_for(key)).unwrap();
    }
    let before = select_all(&table);
    let image = table.close().unwrap();
    assert_eq!(image.len(), PAGE_SIZE * table.pager.num_pages);
    let reopened = Table::open(image).unwrap();
    let after = select_all(&reopened);
    assert_eq!(before, after);
}

#[test]
fn test_close_then_reopen_after_split() {
    let mut table = fresh_table();
    for key in 1..=20u32 {
        insert(&mut table, key, row_for(key)).unwrap();
    }
    let before = select_all(&table);
    let image = table.close().unwrap();
    let reopened = Table::open(image).unwrap();
    assert_eq!(reopened.root_page_num, table.root_page_num);
    let after = select_all(&reopened);
    assert_eq!(before, after);
}

#[test]
fn test_open_rejects_oversized_image() {
    let image = vec![0u8; PAGE_SIZE * 101];
    assert_eq!(Table::open(image).err(), Some(OpenError::FileTooLarge));
}

#[test]
fn test_open_rejects_two_roots() {
    let leaf = BTreeNode::Leaf(BTreeLeafNode {
        is_root: true,
        parent: 0,
        key_values: vec![KV { key: 1, value: encode(1, b"a", b"b").unwrap() }],
    });
    let mut image = page_bytes(&leaf);
    image.extend_from_slice(&page_bytes(&leaf));
    assert_eq!(Table::open(image).err(), Some(OpenError::StructuralCorruption));
}

#[test]
fn test_open_rejects_missing_root() {
    let leaf = BTreeNode::Leaf(BTreeLeafNode {
        is_root: false,
        parent: 0,
        key_values: vec![KV { key: 1, value: encode(1, b"a", b"b").unwrap() }],
    });
    let image = page_bytes(&leaf);
    assert_eq!(Table::open(image).err(), Some(OpenError::StructuralCorruption));
}

#[test]
fn test_open_rejects_unsorted_leaf() {
    let leaf = BTreeNode::Leaf(BTreeLeafNode {
        is_root: true,
        parent: 0,
        key_values: vec![
            KV { key: 5, value: encode(5, b"a", b"b").unwrap() },
            KV { key: 3, value: encode(3, b"c", b"d").unwrap() },
        ],
    });
    let image = page_bytes(&leaf);
    assert_eq!(Table::open(image).err(), Some(OpenError::StructuralCorruption));
}

#[test]
fn test_insert_reports_page_not_found_on_dangling_child() {
    // a root internal page whose only child points past the image's end
    let root = BTreeNode::Internal(BTreeInternalNode {
        is_root: true,
        parent: 0,
        right_child: 50,
        key_children: vec![KC { child: 50, key: 10 }],
    });
    let image = page_bytes(&root);
    let mut table = Table::open(image).unwrap();
    let r = insert(&mut table, 1, row_for(1));
    assert_eq!(r, Err(InsertError::PageNotFound));
}

#[test]
fn test_flush_fails_on_uncached_page() {
    let pager = Pager::new(vec![]).unwrap();
    assert_eq!(pager.flush().err(), Some(FlushError::PageNotCached));
}

#[test]
fn test_cursor_start_and_advance() {
    let mut table = fresh_table();
    let cursor = Cursor::table_start(&table);
    assert!(cursor.end_of_table);
    insert(&mut table, 1, row_for(1)).unwrap();
    insert(&mut table, 2, row_for(2)).unwrap();
    let mut cursor = Cursor::table_start(&table);
    assert!(!cursor.end_of_table);
    assert_eq!(cursor.page_num, 0);
    assert_eq!(cursor.cell_num, 0);
    let row = cursor.get_row(&table).unwrap();
    assert_eq!(get_id(row), 1);
    cursor.advance(&table);
    assert!(!cursor.end_of_table);
    let row = cursor.get_row(&table).unwrap();
    assert_eq!(get_id(row), 2);
    cursor.advance(&table);
    assert!(cursor.end_of_table);
}

#[test]
fn test_cursor_find_insert_position() {
    let mut table = fresh_table();
    for key in [10u32, 20, 30] {
        insert(&mut table, key, row_for(key)).unwrap();
    }
    let c = Cursor::find_insert_position(&table, table.root_page_num, 15).unwrap();
    assert_eq!(c.page_num, 0);
    assert_eq!(c.cell_num, 1);
    assert!(!c.end_of_table);
    let c = Cursor::find_insert_position(&table, table.root_page_num, 40).unwrap();
    assert_eq!(c.cell_num, 3);
    assert!(c.end_of_table);
}

#[test]
fn test_execute_select_returns_rows_in_order() {
    let mut table = fresh_table();
    for key in [2u32, 1] {
        insert(&mut table, key, row_for(key)).unwrap();
    }
    let stmt = Statement::new(StatementType::Select);
    let rows = execute_select(&stmt, &table);
    assert_eq!(rows.len(), 2);
    assert_eq!(get_id(&rows[0]), 1);
    assert_eq!(get_id(&rows[1]), 2);
}

#[test]
fn test_split_without_free_page_reports_page_mut_failure() {
    // ascending inserts split only the rightmost leaf; each split takes a
    // fresh page until the slot table is exhausted
    let mut table = fresh_table();
    let mut hit = None;
    for key in 1..=800u32 {
        match insert(&mut table, key, row_for(key)) {
            Ok(()) => {}
            Err(e) => {
                hit = Some((key, e));
                break;
            }
        }
    }
    let (key, err) = hit.expect("the slot table never filled up");
    assert_eq!(err, InsertError::PageMutFailure);
    assert_eq!(table.pager.num_pages, 100);
    // the failed insert left the table untouched and still scannable
    let rows = select_all(&table);
    let ids: Vec<u32> = rows.iter().map(|r| get_id(r)).collect();
    for pair in ids.windows(2) {
        assert!(pair[0] < pair[1]);
    }
    assert!(!ids.contains(&key));
}

#[test]
fn test_pager_get_page_loads_and_caches() {
    let leaf = BTreeNode::Leaf(BTreeLeafNode {
        is_root: true,
        parent: 0,
        key_values: vec![KV { key: 8, value: encode(8, b"a", b"b").unwrap() }],
    });
    let image = page_bytes(&leaf);
    let mut pager = Pager::new(image).unwrap();
    assert!(pager.pages[0].is_none());
    match pager.get_page(0) {
        Some(BTreeNode::Leaf(loaded)) => {
            assert!(loaded.is_root);
            assert_eq!(loaded.key_values.len(), 1);
            assert_eq!(loaded.key_values[0].key, 8);
        }
        _ => panic!("expected the stored leaf"),
    }
    assert!(pager.pages[0].is_some());
    assert!(pager.get_page(1).is_none());
}

#[test]
fn test_cursor_get_page() {
    let mut table = fresh_table();
    insert(&mut table, 3, row_for(3)).unwrap();
    let cursor = Cursor::table_start(&table);
    match cursor.get_page(&table) {
        Some(BTreeNode::Leaf(leaf)) => assert_eq!(leaf.key_values.len(), 1),
        _ => panic!("expected the root leaf"),
    }
}
