//! The buffer pool: pinning, eviction, write-back and flush.

use pagedb::disk_management::buffer_pool::{BufferPool, RawPage};
use pagedb::disk_management::disk_manager::DiskManager;

fn disk_with_pages(n: usize) -> DiskManager {
    let mut disk = DiskManager::new();
    let mut i = 0;
    while i < n {
        disk.allocate_new_page();
        i += 1;
    }
    disk
}

#[test]
fn pin_prevents_eviction() {
    let disk = disk_with_pages(3);
    let mut pool = BufferPool::with_pool_size(disk, 2);

    assert!(pool.load_page(0).is_some());
    assert!(pool.load_page(1).is_some());
    assert!(pool.load_page(2).is_none());

    pool.unload_page_id(0).expect("page zero was pinned");
    assert!(pool.load_page(2).is_some());
}

#[test]
fn dirty_page_is_written_back_on_eviction() {
    let disk = disk_with_pages(2);
    let mut pool = BufferPool::with_pool_size(disk, 1);

    let mut bytes_a = vec![0u8; 4096];
    bytes_a[0] = 0xAB;
    bytes_a[4095] = 0xCD;

    assert!(pool.load_page(0).is_some());
    pool.update_page(0, RawPage::new(bytes_a.clone())).expect("page zero is pinned");
    pool.unload_page_id(0).expect("page zero was pinned");

    let frame1 = pool.load_page(1).expect("page zero is evictable");
    pool.unload_page_id(1).expect("page one was pinned");

    let frame0 = pool.load_page(0).expect("page zero reloads");
    let raw = pool.get_raw_page(frame0).expect("the frame is filled");
    assert_eq!(raw.data, bytes_a);
    let _ = frame1;
}

#[test]
fn flush_writes_dirty_pages_and_empties_the_pool() {
    let disk = disk_with_pages(2);
    let mut pool = BufferPool::with_pool_size(disk, 2);

    let mut bytes = vec![0u8; 4096];
    bytes[10] = 42;

    pool.load_page(0).expect("page zero loads");
    pool.update_page(0, RawPage::new(bytes.clone())).expect("page zero is pinned");
    pool.unload_all_pages_and_write_to_file();

    let frame = pool.load_page(0).expect("page zero reloads after flush");
    let raw = pool.get_raw_page(frame).expect("the frame is filled");
    assert_eq!(raw.data, bytes);
}

#[test]
fn unload_unknown_page_fails() {
    let disk = disk_with_pages(1);
    let mut pool = BufferPool::with_pool_size(disk, 1);
    assert!(pool.unload_page_id(0).is_err());
}

#[test]
fn unload_unpinned_page_fails() {
    let disk = disk_with_pages(1);
    let mut pool = BufferPool::with_pool_size(disk, 1);
    pool.load_page(0).expect("page zero loads");
    pool.unload_page_id(0).expect("page zero was pinned");
    assert!(pool.unload_page_id(0).is_err());
}

#[test]
fn load_past_end_of_file_fails() {
    let disk = disk_with_pages(1);
    let mut pool = BufferPool::with_pool_size(disk, 1);
    assert!(pool.load_page(5).is_none());
}

#[test]
fn load_new_page_pins_a_zero_page() {
    let disk = disk_with_pages(0);
    let mut pool = BufferPool::with_pool_size(disk, 2);
    let (pid, frame) = pool.load_new_page().expect("a frame is free");
    assert_eq!(pid, 0);
    let raw = pool.get_raw_page(frame).expect("the frame is filled");
    assert_eq!(raw.data, vec![0u8; 4096]);
}
