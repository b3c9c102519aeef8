use rustdb::storage::page::{Page, PAGE_SIZE};

#[test]
fn new_page_is_zero_and_clean() {
    let page = Page::new(7);
    assert_eq!(page.id, 7);
    assert!(page.data.iter().all(|&b| b == 0));
    assert_eq!(page.data.len(), PAGE_SIZE);
    assert!(!page.is_dirty);
}
