//! The B+ tree: page codecs, routing, search and insert through the
//! cache.

use pagedb::b_plus_tree::b_plus_tree_internal_page::BPlusTreeInternalPage;
use pagedb::b_plus_tree::b_plus_tree_leaf_page::BPlusTreeLeafPage;
use pagedb::b_plus_tree::BPlusTreeIndex;
use pagedb::common::rid::Rid;
use pagedb::disk_management::buffer_pool::BufferPool;
use pagedb::disk_management::disk_manager::DiskManager;

#[test]
fn to_raw_page_test() {
    let page = BPlusTreeInternalPage::new(10, 1, 120, 0, vec![(15, 0), (20, 20), (45, 21)]);

    let mut result = vec![0u8; 4096];
    let prefix = [
        10u8, 0, 0, 0, 0, 1, 0, 0, 0, 3, 0, 0, 0, 120, 0, 0, 0, 0, 0, 0, 0, 15, 0, 0, 0, 0, 0, 0,
        0, 20, 0, 0, 0, 20, 0, 0, 0, 45, 0, 0, 0, 21, 0, 0, 0,
    ];
    for (i, b) in prefix.iter().enumerate() {
        result[i] = *b;
    }
    let page_raw_page = page.to_raw_page().unwrap();
    let actual = &page_raw_page.data;
    println!("{:?}", actual);
    assert!(actual.eq(&result));
}

#[test]
fn internal_round_trip_and_routing() {
    let page = BPlusTreeInternalPage::new(4, 0, 10, 0, vec![(0, 1), (10, 2), (30, 3)]);
    let raw = page.to_raw_page().unwrap();
    let back = BPlusTreeInternalPage::from_raw_page(&raw).expect("expect to decode");
    assert_eq!(back.get_first_child(), Some(1));
    assert_eq!(back.get_child_node(5), 1);
    assert_eq!(back.get_child_node(10), 2);
    assert_eq!(back.get_child_node(29), 2);
    assert_eq!(back.get_child_node(30), 3);
    assert_eq!(back.get_child_node(1000), 3);
}

#[test]
fn leaf_round_trip_keeps_pairs() {
    let mut leaf = BPlusTreeLeafPage::new_empty(6, 0, 8, 0);
    leaf.insert(20, Rid::new(1, 1)).expect("leaf has room");
    leaf.insert(10, Rid::new(2, 2)).expect("leaf has room");
    leaf.insert(30, Rid::new(3, 3)).expect("leaf has room");
    assert_eq!(leaf.get_key_at(0), Some(&10));
    assert_eq!(leaf.get_key_at(1), Some(&20));
    assert_eq!(leaf.get_key_at(2), Some(&30));

    let raw = leaf.to_raw_page().unwrap();
    let back = BPlusTreeLeafPage::from_raw_page(&raw).expect("expect to decode");
    assert_eq!(back.get_key_at(0), Some(&10));
    assert_eq!(back.get_rid_at(0), Some(&Rid::new(2, 2)));
    assert_eq!(back.get_rid_of(20), Some(&Rid::new(1, 1)));
    assert_eq!(back.get_rid_of(30), Some(&Rid::new(3, 3)));
    assert_eq!(back.get_rid_of(99), None);
}

#[test]
fn leaf_insert_fails_when_full() {
    let mut leaf = BPlusTreeLeafPage::new_empty(6, 0, 2, 0);
    assert!(leaf.insert(1, Rid::new(0, 1)).is_some());
    assert!(leaf.insert(2, Rid::new(0, 2)).is_some());
    assert!(leaf.insert(3, Rid::new(0, 3)).is_none());
}

#[test]
fn tree_insert_then_search() {
    let mut disk = DiskManager::new();
    let root_pid = disk.allocate_new_page();
    let mut pool = BufferPool::new(disk);

    let root_leaf = BPlusTreeLeafPage::new_empty(root_pid as u32, 0, 16, 0);
    pool.update_page(root_pid, root_leaf.to_raw_page().unwrap()).expect("page is fresh");
    pool.unload_page_id(root_pid).expect("page was pinned");

    let mut index = BPlusTreeIndex::new(root_pid as u32);
    assert_eq!(index.insert(5, Rid::new(2, 3), &mut pool), Some(()));
    assert_eq!(index.insert(1, Rid::new(4, 0), &mut pool), Some(()));
    assert_eq!(index.search(5, &mut pool), Some(Rid::new(2, 3)));
    assert_eq!(index.search(1, &mut pool), Some(Rid::new(4, 0)));
    assert_eq!(index.search(9, &mut pool), None);
}

#[test]
fn tree_routes_through_internal_page() {
    let mut disk = DiskManager::new();
    let root_pid = disk.allocate_new_page();
    let left_pid = disk.allocate_new_page();
    let right_pid = disk.allocate_new_page();
    let mut pool = BufferPool::new(disk);

    let root = BPlusTreeInternalPage::new(
        root_pid as u32,
        0,
        16,
        0,
        vec![(0, left_pid as u32), (100, right_pid as u32)],
    );
    pool.update_page(root_pid, root.to_raw_page().unwrap()).expect("page is fresh");
    pool.unload_page_id(root_pid).expect("page was pinned");

    let mut left = BPlusTreeLeafPage::new_empty(left_pid as u32, 0, 16, root_pid as u32);
    left.insert(7, Rid::new(1, 7)).expect("leaf has room");
    pool.update_page(left_pid, left.to_raw_page().unwrap()).expect("page is fresh");
    pool.unload_page_id(left_pid).expect("page was pinned");

    let mut right = BPlusTreeLeafPage::new_empty(right_pid as u32, 0, 16, root_pid as u32);
    right.insert(150, Rid::new(2, 9)).expect("leaf has room");
    pool.update_page(right_pid, right.to_raw_page().unwrap()).expect("page is fresh");
    pool.unload_page_id(right_pid).expect("page was pinned");

    let index = BPlusTreeIndex::new(root_pid as u32);
    assert_eq!(index.search(7, &mut pool), Some(Rid::new(1, 7)));
    assert_eq!(index.search(150, &mut pool), Some(Rid::new(2, 9)));
    assert_eq!(index.search(8, &mut pool), None);
}
