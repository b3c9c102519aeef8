use rustdb::btree::keys::{bytes_equal, bytes_less, starts_with};
use rustdb::btree::node::{BTreeNode, NodeType};
use rustdb::btree::tree::BTree;
use rustdb::storage::buffer_pool::{BufferPool, FetchStep};
use rustdb::storage::page::{Page, PAGE_SIZE};

fn leaf(pairs: &[(&[u8], &[u8])]) -> BTreeNode {
    BTreeNode {
        node_type: NodeType::Leaf,
        keys: pairs.iter().map(|(k, _)| k.to_vec()).collect(),
        values: pairs.iter().map(|(_, v)| v.to_vec()).collect(),
        children: Vec::new(),
    }
}

fn pool_with(page: Page, capacity: usize) -> BufferPool {
    let mut pool = BufferPool::new(capacity);
    match pool.begin_fetch(page.id) {
        FetchStep::Miss { write_back } => assert!(write_back.is_none()),
        FetchStep::Hit => panic!("empty cache reported a hit"),
    }
    pool.complete_fetch(page);
    pool
}

fn empty_tree() -> BTree {
    BTree::new(pool_with(Page::new(0), 10))
}

#[test]
fn empty_leaf_has_nothing() {
    let node = BTreeNode::empty_leaf();
    assert_eq!(node.node_type, NodeType::Leaf);
    assert!(node.keys.is_empty() && node.values.is_empty() && node.children.is_empty());
}

#[test]
fn to_page_writes_the_layout() {
    let node = leaf(&[(b"a", b"1")]);
    let page = node.to_page(3);
    assert_eq!(page.id, 3);
    assert!(page.is_dirty);
    assert_eq!(&page.data[..8], &[0, 1, 1, 0, b'a', 1, 0, b'1']);
    assert!(page.data[8..].iter().all(|&b| b == 0));
}

#[test]
fn internal_node_type_byte_is_one() {
    let mut node = leaf(&[(b"k", b"")]);
    node.node_type = NodeType::Internal;
    let page = node.to_page(0);
    assert_eq!(page.data[0], 1);
    let back = BTreeNode::from_page(&page);
    assert_eq!(back.node_type, NodeType::Internal);
    assert_eq!(back.keys, vec![b"k".to_vec()]);
}

#[test]
fn page_roundtrip_keeps_the_node() {
    let node = leaf(&[(b"apple", b"red"), (b"banana", b"yellow"), (b"", b"empty key")]);
    let back = BTreeNode::from_page(&node.to_page(9));
    assert_eq!(back.node_type, NodeType::Leaf);
    assert_eq!(back.keys, node.keys);
    assert_eq!(back.values, node.values);
    assert!(back.children.is_empty());
}

#[test]
fn unknown_node_type_reads_as_empty_leaf() {
    let mut page = Page::new(0);
    page.data[0] = 2;
    page.data[1] = 1;
    let node = BTreeNode::from_page(&page);
    assert_eq!(node.node_type, NodeType::Leaf);
    assert!(node.keys.is_empty());
}

#[test]
fn entry_past_the_page_end_reads_as_empty_leaf() {
    let mut page = Page::new(0);
    page.data[1] = 1;
    // key length 5000 cannot fit in the page
    page.data[2] = (5000 % 256) as u8;
    page.data[3] = (5000 / 256) as u8;
    let node = BTreeNode::from_page(&page);
    assert!(node.keys.is_empty() && node.values.is_empty());
}

#[test]
fn key_count_is_stored_modulo_256() {
    let keys: Vec<Vec<u8>> = (0..256u32).map(|i| vec![(i % 256) as u8]).collect();
    let node = BTreeNode {
        node_type: NodeType::Leaf,
        values: vec![Vec::new(); 256],
        keys,
        children: Vec::new(),
    };
    assert!(node.fits_in_page());
    let page = node.to_page(0);
    assert_eq!(page.data[1], 0);
    assert!(BTreeNode::from_page(&page).keys.is_empty());
}

#[test]
fn missing_values_are_not_written() {
    let node = BTreeNode {
        node_type: NodeType::Leaf,
        keys: vec![b"a".to_vec(), b"b".to_vec()],
        values: vec![b"1".to_vec()],
        children: Vec::new(),
    };
    let page = node.to_page(0);
    assert_eq!(page.data[1], 2);
    let back = BTreeNode::from_page(&page);
    // the second entry reads as empty key and value from the zero bytes
    assert_eq!(back.keys, vec![b"a".to_vec(), Vec::new()]);
    assert_eq!(back.values, vec![b"1".to_vec(), Vec::new()]);
}

#[test]
fn fits_in_page_checks_the_size() {
    assert!(leaf(&[(b"k", &[7u8; 4000])]).fits_in_page());
    assert!(!leaf(&[(b"k", &[7u8; 4100])]).fits_in_page());
    // 2 header bytes + 4 length bytes + 1 key byte + 4089 value bytes = 4096
    assert!(leaf(&[(b"k", &[7u8; 4089])]).fits_in_page());
    assert!(!leaf(&[(b"k", &[7u8; 4090])]).fits_in_page());
}

#[test]
fn byte_string_order() {
    assert!(bytes_less(b"a", b"b"));
    assert!(bytes_less(b"ab", b"abc"));
    assert!(!bytes_less(b"abc", b"ab"));
    assert!(!bytes_less(b"x", b"x"));
    assert!(bytes_less(b"", b"\x00"));
    assert!(bytes_equal(b"same", b"same"));
    assert!(!bytes_equal(b"same", b"sam"));
    assert!(starts_with(b"person:1", b"person:"));
    assert!(!starts_with(b"pers", b"person:"));
}

#[test]
fn new_tree_formats_an_empty_page() {
    let tree = empty_tree();
    let page = tree.buffer_pool().page(0);
    assert!(page.is_dirty);
    assert_eq!(&page.data[..2], &[0, 0]);
}

#[test]
fn new_tree_keeps_a_written_page() {
    let stored = leaf(&[(b"k", b"v")]).to_page(0);
    let mut clean = Page::new(0);
    clean.data = stored.data;
    let mut tree = BTree::new(pool_with(clean, 10));
    assert!(!tree.buffer_pool().page(0).is_dirty);
    assert_eq!(tree.get(b"k"), Some(b"v".to_vec()));
}

#[test]
fn insert_keeps_keys_sorted() {
    let mut tree = empty_tree();
    tree.insert(b"b".to_vec(), b"2".to_vec());
    tree.insert(b"a".to_vec(), b"1".to_vec());
    tree.insert(b"c".to_vec(), b"3".to_vec());
    let all = tree.scan_prefix(b"");
    let keys: Vec<Vec<u8>> = all.iter().map(|(k, _)| k.clone()).collect();
    assert_eq!(keys, vec![b"a".to_vec(), b"b".to_vec(), b"c".to_vec()]);
}

#[test]
fn get_after_insert_and_update() {
    let mut tree = empty_tree();
    tree.insert(b"key".to_vec(), b"old".to_vec());
    assert_eq!(tree.get(b"key"), Some(b"old".to_vec()));
    tree.insert(b"key".to_vec(), b"new".to_vec());
    assert_eq!(tree.get(b"key"), Some(b"new".to_vec()));
    assert_eq!(tree.scan_prefix(b"").len(), 1);
    assert_eq!(tree.get(b"other"), None);
}

#[test]
fn delete_removes_only_its_key() {
    let mut tree = empty_tree();
    tree.insert(b"a".to_vec(), b"1".to_vec());
    tree.insert(b"b".to_vec(), b"2".to_vec());
    tree.delete(b"a");
    assert_eq!(tree.get(b"a"), None);
    assert_eq!(tree.get(b"b"), Some(b"2".to_vec()));
    tree.delete(b"missing");
    assert_eq!(tree.get(b"b"), Some(b"2".to_vec()));
}

#[test]
fn scan_prefix_selects_matching_keys() {
    let mut tree = empty_tree();
    tree.insert(b"person:2".to_vec(), b"Bob".to_vec());
    tree.insert(b"animal:1".to_vec(), b"Cat".to_vec());
    tree.insert(b"person:1".to_vec(), b"Alice".to_vec());
    let found = tree.scan_prefix(b"person:");
    assert_eq!(
        found,
        vec![
            (b"person:1".to_vec(), b"Alice".to_vec()),
            (b"person:2".to_vec(), b"Bob".to_vec())
        ]
    );
    assert!(tree.scan_prefix(b"zebra").is_empty());
}

#[test]
fn can_insert_refuses_too_large_and_internal() {
    let tree = empty_tree();
    assert!(tree.can_insert(b"k", &[1u8; 100]));
    assert!(!tree.can_insert(b"k", &[1u8; 5000]));
    let mut internal = leaf(&[]);
    internal.node_type = NodeType::Internal;
    let page = internal.to_page(0);
    let mut clean = Page::new(0);
    clean.data = page.data;
    let tree = BTree::new(pool_with(clean, 10));
    assert!(!tree.can_insert(b"k", b"v"));
}

#[test]
fn insert_writes_the_root_page() {
    let mut tree = empty_tree();
    tree.insert(b"a".to_vec(), b"1".to_vec());
    let page = tree.buffer_pool().page(0);
    assert!(page.is_dirty);
    assert_eq!(&page.data[..8], &[0, 1, 1, 0, b'a', 1, 0, b'1']);
    assert_eq!(page.data.len(), PAGE_SIZE);
}
