//! The table directory page codec.

use pagedb::disk_management::buffer_pool::RawPage;
use pagedb::table::table_directory_page::{
    DirectoryEntry, TableDirectoryPage, TABLE_DIRECTORY_ENTRIES,
};

#[test]
fn table_directory_page_from_raw_page_test() {
    let mut raw_page_content = vec![0u8; 4096];
    let header = [12, 0, 0, 0, 1, 0, 0, 0, 0, 0, 0, 0, 1, 0, 0, 0];
    for (i, b) in header.iter().enumerate() {
        raw_page_content[i] = *b;
    }
    raw_page_content[4095] = 34;

    let raw_page = RawPage::new(raw_page_content);
    let tuple_page = TableDirectoryPage::from_raw_page(&raw_page).expect("expect to build page");
    assert_eq!(tuple_page.own_pid, 12);
    assert_eq!(tuple_page.lsn, 1);
    assert_eq!(tuple_page.prev_directory, 0);

    assert_eq!(tuple_page.next_directory, 1);
}

#[test]
fn to_raw_page() {
    let directory_page = TableDirectoryPage {
        own_pid: 20,
        lsn: 512,
        prev_directory: 124,
        next_directory: 125,
        entries: vec![
            DirectoryEntry { capacity: 0, page_id: 0 };
            TABLE_DIRECTORY_ENTRIES
        ],
    };

    let mut expected = vec![0u8; 4096];
    let header = [20, 0, 0, 0, 0, 2, 0, 0, 124, 0, 0, 0, 125, 0, 0, 0];
    for (i, b) in header.iter().enumerate() {
        expected[i] = *b;
    }
    let actual = directory_page.to_raw_page();
    assert!(actual.data == expected);
}

#[test]
fn table_directory_round_trip() {
    let mut entries = vec![DirectoryEntry { capacity: 0, page_id: 0 }; TABLE_DIRECTORY_ENTRIES];
    entries[0] = DirectoryEntry { capacity: 17, page_id: 3 };
    entries[815] = DirectoryEntry { capacity: 255, page_id: 12345 };
    let directory_page = TableDirectoryPage {
        own_pid: 7,
        lsn: 9,
        prev_directory: 5,
        next_directory: 6,
        entries,
    };
    let raw = directory_page.to_raw_page();
    let back = TableDirectoryPage::from_raw_page(&raw).expect("expect to build page");
    assert_eq!(back.own_pid, 7);
    assert_eq!(back.lsn, 9);
    assert_eq!(back.prev_directory, 5);
    assert_eq!(back.next_directory, 6);
    assert_eq!(back.entries[0], DirectoryEntry { capacity: 17, page_id: 3 });
    assert_eq!(back.entries[815], DirectoryEntry { capacity: 255, page_id: 12345 });
}
