//! The heap page: decoding, insertion, tombstoning.

use pagedb::common::rid::Rid;
use pagedb::disk_management::buffer_pool::RawPage;
use pagedb::table::table_page::{TablePage, Tuple, TupleHeader};

#[test]
fn table_page_from_raw_page_test() {
    let mut raw_page_content = vec![0u8; 4096];
    let header = [12, 0, 0, 0, 253, 15, 1, 0, 253, 15, 3, 0, 0];
    for (i, b) in header.iter().enumerate() {
        raw_page_content[i] = *b;
    }
    raw_page_content[4095] = 34;

    let raw_page = RawPage::new(raw_page_content);
    let tuple_page = TablePage::from_raw_page(&raw_page).expect("expect to build page");
    assert_eq!(tuple_page.free_space_pointer, 4093);
    assert_eq!(tuple_page.own_pid, 12);
    assert_eq!(tuple_page.tuple_count, 1);
    assert_eq!(tuple_page.tuple_headers.len(), 1);
    assert_eq!(tuple_page.tuple_headers[0].tuple_offset, 4093);
    assert_eq!(tuple_page.tuple_headers[0].tuple_size, 3);
    assert_eq!(tuple_page.tuples[0].data[2], 34);
}

#[test]
fn test_insert() {
    let mut table_page = TablePage {
        own_pid: 0,
        free_space_pointer: 4096,
        tuple_count: 0,
        tuple_headers: Vec::new(),
        tuples: Vec::new(),
    };
    table_page.insert(vec![10, 0, 15, 5]);
    assert_eq!(table_page.free_space_pointer, 4092);
    assert_eq!(table_page.tuple_headers.len(), 1);
    assert_eq!(table_page.tuple_headers[0].tuple_offset, 4092);
    assert_eq!(table_page.tuple_headers[0].tuple_size, 4);

    table_page.insert(vec![0, 15, 5]);
    assert_eq!(table_page.free_space_pointer, 4089);
    assert_eq!(table_page.tuple_headers.len(), 2);
    assert_eq!(table_page.tuple_headers[1].tuple_offset, 4089);
    assert_eq!(table_page.tuple_headers[1].tuple_size, 3);
}

#[test]
fn test_remove() {
    let mut table_page = TablePage {
        own_pid: 0,
        free_space_pointer: 4094,
        tuple_count: 1,
        tuple_headers: vec![TupleHeader::new_occupied(4096, 2)],
        tuples: vec![Tuple { data: vec![0, 1], own_rid: Rid::new(0, 0) }],
    };

    let old_table = table_page.remove(0);
    let expected = Some(Tuple { data: vec![0, 1], own_rid: Rid::new(0, 0) });
    assert_eq!(old_table, expected);
    assert!(table_page.remove(0).is_none());
}

#[test]
fn insert_fails_when_headers_meet_tuples() {
    let mut table_page = TablePage {
        own_pid: 3,
        free_space_pointer: 20,
        tuple_count: 0,
        tuple_headers: Vec::new(),
        tuples: Vec::new(),
    };
    assert!(table_page.insert(vec![1; 10]).is_none());
    assert_eq!(table_page.free_space_pointer, 20);
    assert_eq!(table_page.tuple_headers.len(), 0);
}

#[test]
fn table_page_encode_decode_round_trip() {
    let mut table_page = TablePage {
        own_pid: 9,
        free_space_pointer: 4096,
        tuple_count: 0,
        tuple_headers: Vec::new(),
        tuples: Vec::new(),
    };
    let rid = table_page.insert(vec![7, 8, 9]).expect("insert fits");
    assert_eq!(rid, Rid::new(9, 0));
    table_page.insert(vec![1, 2]).expect("insert fits");
    table_page.remove(1).expect("slot exists");

    let raw = table_page.to_raw_page();
    let back = TablePage::from_raw_page(&raw).expect("the encoding decodes");
    assert_eq!(back.own_pid, 9);
    assert_eq!(back.free_space_pointer, 4091);
    assert_eq!(back.tuple_count, 2);
    assert_eq!(back.tuples[0].data, vec![7, 8, 9]);
    assert!(back.tuple_headers[1].free);
    assert_eq!(back.tuples[1].data, Vec::<u8>::new());
}

#[test]
fn malformed_header_is_rejected() {
    let mut raw_page_content = vec![0u8; 4096];
    raw_page_content[6] = 255;
    raw_page_content[7] = 255;
    let raw_page = RawPage::new(raw_page_content);
    assert!(TablePage::from_raw_page(&raw_page).is_err());
}
