use rustdb::storage::buffer_pool::{BufferPool, FetchStep};
use rustdb::storage::page::Page;

fn load(pool: &mut BufferPool, id: u64) -> Option<Page> {
    match pool.begin_fetch(id) {
        FetchStep::Hit => panic!("page {} was already cached", id),
        FetchStep::Miss { write_back } => {
            pool.complete_fetch(Page::new(id));
            write_back
        }
    }
}

#[test]
fn hit_and_miss() {
    let mut pool = BufferPool::new(2);
    assert!(!pool.contains(1));
    assert!(load(&mut pool, 1).is_none());
    assert!(pool.contains(1));
    assert!(matches!(pool.begin_fetch(1), FetchStep::Hit));
}

#[test]
fn least_recently_used_page_is_evicted() {
    let mut pool = BufferPool::new(2);
    load(&mut pool, 1);
    load(&mut pool, 2);
    // using page 1 again makes page 2 the least recently used
    assert!(matches!(pool.begin_fetch(1), FetchStep::Hit));
    assert!(load(&mut pool, 3).is_none());
    assert!(pool.contains(1));
    assert!(!pool.contains(2));
    assert!(pool.contains(3));
}

#[test]
fn evicted_dirty_page_is_handed_back() {
    let mut pool = BufferPool::new(1);
    load(&mut pool, 5);
    let mut page = Page::new(5);
    page.data[0] = 42;
    page.mark_dirty();
    pool.replace_page(page);
    let evicted = load(&mut pool, 6).expect("a modified page must be written back");
    assert_eq!(evicted.id, 5);
    assert_eq!(evicted.data[0], 42);
    assert!(pool.contains(6) && !pool.contains(5));
}

#[test]
fn dirty_page_ids_lists_modified_pages() {
    let mut pool = BufferPool::new(4);
    load(&mut pool, 1);
    load(&mut pool, 2);
    load(&mut pool, 3);
    let mut page = Page::new(2);
    page.mark_dirty();
    pool.replace_page(page);
    assert_eq!(pool.dirty_page_ids(), vec![2]);
    assert_eq!(pool.page(2).id, 2);
}

#[test]
fn capacity_zero_never_evicts() {
    let mut pool = BufferPool::new(0);
    load(&mut pool, 1);
    load(&mut pool, 2);
    assert!(pool.contains(1) && pool.contains(2));
}

#[test]
fn mark_dirty_sets_the_flag() {
    let mut page = Page::new(1);
    page.mark_dirty();
    assert!(page.is_dirty);
    assert_eq!(page.id, 1);
}

#[test]
fn mark_clean_keeps_the_data() {
    let mut pool = BufferPool::new(2);
    load(&mut pool, 4);
    let mut page = Page::new(4);
    page.data[3] = 7;
    page.mark_dirty();
    pool.replace_page(page);
    pool.mark_clean(4);
    assert!(!pool.page(4).is_dirty);
    assert_eq!(pool.page(4).data[3], 7);
    assert!(pool.dirty_page_ids().is_empty());
}
