//! The extendible hash index: bucket pages, hashing, insert, lookup,
//! remove, and splitting.

use pagedb::disk_management::buffer_pool::{BufferPool, RawPage};
use pagedb::disk_management::disk_manager::DiskManager;
use pagedb::extendible_hashing::extendible_hashing::{get_hash, ExtendibleHashing};
use pagedb::extendible_hashing::hash_bucket_page::{HashBucketPage, BUCKET_SLOTS};
use pagedb::extendible_hashing::hash_directory_page::HashDirectoryPage;

#[test]
fn hash_is_stable() {
    assert_eq!(get_hash(12345), get_hash(12345));
}

#[test]
fn bucket_round_trip_keeps_entries() {
    let zero = RawPage::new(vec![0u8; 4096]);
    let mut bucket = HashBucketPage::from_raw_page(&zero);
    bucket.insert(11, 100).expect("bucket has room");
    bucket.insert(22, 200).expect("bucket has room");
    bucket.remove(11).expect("the key is live");

    let raw = bucket.to_raw_page();
    let back = HashBucketPage::from_raw_page(&raw);
    assert_eq!(back.lookup(22), Some(200));
    assert_eq!(back.lookup(11), None);
    assert_eq!(back.is_readable(0), Some(&false));
    assert_eq!(back.has_been_occupied(0), Some(&true));
}

#[test]
fn bucket_insert_fails_when_full() {
    let zero = RawPage::new(vec![0u8; 4096]);
    let mut bucket = HashBucketPage::from_raw_page(&zero);
    let mut k: u32 = 0;
    while (k as usize) < BUCKET_SLOTS {
        bucket.insert(k, k).expect("bucket has room");
        k += 1;
    }
    assert!(bucket.is_full());
    assert!(bucket.insert(9999999, 1).is_err());
}

#[test]
fn directory_round_trip() {
    let page = HashDirectoryPage::new_empty(3, 10, 11, 7);
    let raw = page.to_raw_page();
    let back = HashDirectoryPage::from_raw_page(&raw).expect("expect to build page");
    assert_eq!(back.get_global_depth(), 1);
    assert_eq!(back.get_bucket_page_id(0), Some(&10));
    assert_eq!(back.get_bucket_page_id(1), Some(&11));
    assert_eq!(back.get_local_depth(0), Some(&1));
    assert_eq!(back.get_local_depth(1), Some(&1));
    assert_eq!(back.get_local_depth(2), Some(&0));
}

#[test]
fn insert_then_lookup_returns_the_value() {
    let disk = DiskManager::new();
    let mut pool = BufferPool::new(disk);
    let index = ExtendibleHashing::setup_new_hashmap(&mut pool, 1).expect("setup succeeds");

    index.insert(&mut pool, 42, 4242).expect("insert succeeds");
    assert_eq!(index.lookup(&mut pool, 42).expect("lookup succeeds"), Some(4242));
    assert_eq!(index.lookup(&mut pool, 43).expect("lookup succeeds"), None);
}

#[test]
fn remove_takes_the_entry_out() {
    let disk = DiskManager::new();
    let mut pool = BufferPool::new(disk);
    let index = ExtendibleHashing::setup_new_hashmap(&mut pool, 1).expect("setup succeeds");

    index.insert(&mut pool, 7, 70).expect("insert succeeds");
    assert_eq!(index.remove(&mut pool, 7), Some((7, 70)));
    assert_eq!(index.lookup(&mut pool, 7).expect("lookup succeeds"), None);
    assert_eq!(index.remove(&mut pool, 7), None);
}

#[test]
fn split_keeps_every_key_retrievable() {
    let disk = DiskManager::new();
    let mut pool = BufferPool::new(disk);
    let index = ExtendibleHashing::setup_new_hashmap(&mut pool, 1).expect("setup succeeds");

    // Keys that all land in slot zero while the global depth is one.
    let mut keys: Vec<u32> = Vec::new();
    let mut candidate: u32 = 0;
    while keys.len() < BUCKET_SLOTS + 1 {
        if get_hash(candidate) % 2 == 0 {
            keys.push(candidate);
        }
        candidate += 1;
    }

    for k in &keys {
        index.insert(&mut pool, *k, k.wrapping_mul(3)).expect("insert succeeds");
    }

    // The overflow forced a split: the directory either grew or
    // redirected the two sibling slots to distinct buckets.
    let dir_frame = pool.load_page(index.directory_page_id as usize).expect("directory loads");
    let raw = pool.get_raw_page(dir_frame).expect("the frame is filled");
    let directory = HashDirectoryPage::from_raw_page(raw).expect("directory decodes");
    let grew = directory.get_global_depth() >= 2;
    let redirected = directory.get_bucket_page_id(0) != directory.get_bucket_page_id(2)
        || directory.get_bucket_page_id(1) != directory.get_bucket_page_id(3);
    assert!(grew || redirected);
    pool.unload_page_id(index.directory_page_id as usize).expect("directory was pinned");

    for k in &keys {
        assert_eq!(
            index.lookup(&mut pool, *k).expect("lookup succeeds"),
            Some(k.wrapping_mul(3))
        );
    }
}

#[test]
fn insert_twice_lookup_finds_an_inserted_value() {
    let disk = DiskManager::new();
    let mut pool = BufferPool::new(disk);
    let index = ExtendibleHashing::setup_new_hashmap(&mut pool, 1).expect("setup succeeds");

    index.insert(&mut pool, 5, 50).expect("insert succeeds");
    index.insert(&mut pool, 5, 51).expect("insert succeeds");
    let found = index.lookup(&mut pool, 5).expect("lookup succeeds").expect("the key is present");
    assert!(found == 50 || found == 51);
}
