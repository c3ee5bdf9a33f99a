//! The LRU replacer: membership and eviction order.

use pagedb::disk_management::lru_replacer::LRUReplacer;

#[test]
fn pin_nonexisting() {
    let mut lru_replacer = LRUReplacer::new(10);

    assert_eq!(lru_replacer.drop_page(0), None);
}

#[test]
fn pin_existing() {
    let mut lru_replacer = LRUReplacer::new(10);
    lru_replacer.add_page(0);

    assert_eq!(lru_replacer.drop_page(0), Some(0));
}

#[test]
fn pop_in_insertion_order() {
    let mut lru_replacer = LRUReplacer::new(10);

    lru_replacer.add_page(0);
    lru_replacer.add_page(2);
    lru_replacer.add_page(1);

    assert_eq!(lru_replacer.pop_least_recently_used(), Some(0));
    assert_eq!(lru_replacer.pop_least_recently_used(), Some(2));
    assert_eq!(lru_replacer.pop_least_recently_used(), Some(1));
    assert_eq!(lru_replacer.pop_least_recently_used(), None);
}

#[test]
fn readd_refreshes_the_stamp() {
    let mut lru_replacer = LRUReplacer::new(10);

    lru_replacer.add_page(7);
    lru_replacer.add_page(8);
    lru_replacer.add_page(7);

    assert_eq!(lru_replacer.current_size(), 2);
    assert_eq!(lru_replacer.pop_least_recently_used(), Some(8));
    assert_eq!(lru_replacer.pop_least_recently_used(), Some(7));
}

#[test]
fn drop_all_empties() {
    let mut lru_replacer = LRUReplacer::new(10);
    lru_replacer.add_page(1);
    lru_replacer.add_page(2);
    lru_replacer.drop_all_pages();

    assert_eq!(lru_replacer.current_size(), 0);
    assert_eq!(lru_replacer.pop_least_recently_used(), None);
}
