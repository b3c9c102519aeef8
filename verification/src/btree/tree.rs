//! A B-tree made of a single leaf kept in the root page of a page cache.
use vstd::prelude::*;
use crate::btree::codec::{entries_bytes, lemma_entries_bytes_remove, zip_entries};
use crate::btree::keys::{bytes_equal, bytes_less, copy_bytes, starts_with};
use crate::btree::leaf::{
    comes_after, equals, insert_index, key_index, lemma_first_match,
    lemma_first_match_at, node_delete, node_get, node_insert, node_scan, scan_entries,
};
use crate::btree::node::{
    byte_strings, decode_page, empty_leaf_model, fits_in_page, lemma_decoded_node,
    lemma_page_roundtrip, node_entries, page_image, BTreeNode, NodeModel, NodeType,
};
use crate::storage::buffer_pool::{touched, BufferPool, FetchStep};
use crate::storage::page::{zero_bytes, Page, PageId, PAGE_SIZE};

verus! {

/// The byte strings of an optional byte vector.
pub open spec fn opt_bytes(o: Option<Vec<u8>>) -> Option<Seq<u8>> {
    match o {
        Some(v) => Some(v@),
        None => None,
    }
}

/// The byte strings of a vector of key/value pairs.
pub open spec fn pairs_view(v: Seq<(Vec<u8>, Vec<u8>)>) -> Seq<(Seq<u8>, Seq<u8>)> {
    v.map_values(|p: (Vec<u8>, Vec<u8>)| (p.0@, p.1@))
}


/// The position of the first key equal to `key`, or `keys.len()`.
fn find_key(keys: &Vec<Vec<u8>>, key: &[u8]) -> (r: usize)
    ensures
        r == key_index(byte_strings(keys@), key@),
{
    let ghost ks = byte_strings(keys@);
    let mut i: usize = 0;
    while i < keys.len()
        invariant
            ks == byte_strings(keys@),
            i <= keys@.len(),
            forall|j: int| 0 <= j < i ==> !equals(key@)(#[trigger] ks[j]),
        decreases keys@.len() - i,
    {
        if bytes_equal(keys[i].as_slice(), key) {
            proof {
                lemma_first_match_at(ks, equals(key@), i as int);
            }
            return i;
        }
        i = i + 1;
    }
    proof {
        lemma_first_match_at(ks, equals(key@), i as int);
    }
    i
}

/// The position of the first key that comes after `key`, or `keys.len()`.
fn find_insert_position(keys: &Vec<Vec<u8>>, key: &[u8]) -> (r: usize)
    ensures
        r == insert_index(byte_strings(keys@), key@),
{
    let ghost ks = byte_strings(keys@);
    let mut i: usize = 0;
    while i < keys.len()
        invariant
            ks == byte_strings(keys@),
            i <= keys@.len(),
            forall|j: int| 0 <= j < i ==> !comes_after(key@)(#[trigger] ks[j]),
        decreases keys@.len() - i,
    {
        if bytes_less(key, keys[i].as_slice()) {
            proof {
                lemma_first_match_at(ks, comes_after(key@), i as int);
            }
            return i;
        }
        i = i + 1;
    }
    proof {
        lemma_first_match_at(ks, comes_after(key@), i as int);
    }
    i
}

/// Puts `value` under `key` in a node.
pub(crate) fn insert_entry(node: &mut BTreeNode, key: Vec<u8>, value: Vec<u8>)
    requires
        old(node).keys@.len() == old(node).values@.len(),
    ensures
        final(node)@ == node_insert(old(node)@, key@, value@),
{
    let pos = find_key(&node.keys, key.as_slice());
    if pos < node.keys.len() {
        let ghost value_view = value@;
        node.values.set(pos, value);
        assert(node@ =~= node_insert(old(node)@, key@, value_view));
    } else {
        let at = find_insert_position(&node.keys, key.as_slice());
        proof {
            lemma_first_match(byte_strings(node.keys@), comes_after(key@));
        }
        let ghost key_view = key@;
        let ghost value_view = value@;
        node.keys.insert(at, key);
        node.values.insert(at, value);
        assert(byte_strings(node.keys@) =~= byte_strings(old(node).keys@).insert(at as int, key_view));
        assert(byte_strings(node.values@) =~= byte_strings(old(node).values@).insert(at as int, value_view));
        assert(node@ =~= node_insert(old(node)@, key_view, value_view));
    }
}

/// The value stored under the first key equal to `key`.
fn lookup(node: &BTreeNode, key: &[u8]) -> (r: Option<Vec<u8>>)
    requires
        node.keys@.len() == node.values@.len(),
    ensures
        opt_bytes(r) == node_get(node@, key@),
{
    let pos = find_key(&node.keys, key);
    if pos < node.keys.len() {
        Some(copy_bytes(node.values[pos].as_slice()))
    } else {
        None
    }
}

/// Removes the first key equal to `key` and its value; tells whether there was one.
pub(crate) fn remove_entry(node: &mut BTreeNode, key: &[u8]) -> (found: bool)
    requires
        old(node).keys@.len() == old(node).values@.len(),
    ensures
        found == (key_index(old(node)@.keys, key@) < old(node)@.keys.len()),
        final(node)@ == node_delete(old(node)@, key@),
{
    let pos = find_key(&node.keys, key);
    if pos < node.keys.len() {
        node.keys.remove(pos);
        node.values.remove(pos);
        assert(byte_strings(node.keys@) =~= byte_strings(old(node).keys@).remove(pos as int));
        assert(byte_strings(node.values@) =~= byte_strings(old(node).values@).remove(pos as int));
        assert(node@ =~= node_delete(old(node)@, key@));
        true
    } else {
        false
    }
}

/// The entries of a node whose key begins with `prefix`, in order.
fn scan(node: &BTreeNode, prefix: &[u8]) -> (r: Vec<(Vec<u8>, Vec<u8>)>)
    ensures
        pairs_view(r@) == node_scan(node@, prefix@),
{
    let ghost pairs = zip_entries(node@.keys, node@.values);
    let n = if node.keys.len() <= node.values.len() { node.keys.len() } else { node.values.len() };
    let mut out: Vec<(Vec<u8>, Vec<u8>)> = Vec::new();
    let mut i: usize = 0;
    while i < n
        invariant
            pairs == zip_entries(node@.keys, node@.values),
            n == pairs.len(),
            i <= n,
            pairs_view(out@) == scan_entries(pairs.take(i as int), prefix@),
        decreases n - i,
    {
        let key = &node.keys[i];
        let value = &node.values[i];
        assert(pairs[i as int] == (key@, value@));
        assert(pairs.take(i + 1).drop_last() =~= pairs.take(i as int));
        assert(pairs.take(i + 1).last() == pairs[i as int]);
        if starts_with(key.as_slice(), prefix) {
            let ghost before = out@;
            out.push((copy_bytes(key.as_slice()), copy_bytes(value.as_slice())));
            assert(pairs_view(out@) =~= pairs_view(before).push((key@, value@)));
        }
        i = i + 1;
    }
    assert(pairs.take(n as int) =~= pairs);
    out
}

/// Whether every byte of the page is zero.
fn all_zero(page: &Page) -> (r: bool)
    ensures
        r == (page.data@ == zero_bytes(PAGE_SIZE as nat)),
{
    let mut i: usize = 0;
    while i < PAGE_SIZE
        invariant
            i <= PAGE_SIZE,
            page.data@.len() == PAGE_SIZE,
            forall|j: int| 0 <= j < i ==> page.data@[j] == 0,
        decreases PAGE_SIZE - i,
    {
        if page.data[i] != 0 {
            assert(page.data@ != zero_bytes(PAGE_SIZE as nat)) by {
                assert(zero_bytes(PAGE_SIZE as nat)[i as int] == 0);
            }
            return false;
        }
        i = i + 1;
    }
    assert(page.data@ =~= zero_bytes(PAGE_SIZE as nat));
    true
}

/// A B-tree whose only node is a leaf stored in the root page, which stays
/// in the page cache.
pub struct BTree {
    root: PageId,
    buffer_pool: BufferPool,
}

impl BTree {
    /// The identifier of the root page.
    pub closed spec fn root_id(&self) -> PageId {
        self.root
    }

    /// The page cache.
    pub closed spec fn pool(&self) -> BufferPool {
        self.buffer_pool
    }

    /// The tree's invariant: the root page is cached under its identifier.
    pub closed spec fn wf(&self) -> bool {
        &&& self.buffer_pool.wf()
        &&& self.buffer_pool@.contains_key(self.root)
        &&& self.buffer_pool@[self.root].id == self.root
    }

    /// The root page.
    pub open spec fn root_page(&self) -> Page {
        self.pool()@[self.root_id()]
    }

    /// The node held by the root page.
    pub open spec fn node(&self) -> NodeModel {
        decode_page(self.root_page().data@)
    }

    /// After a call that reaches the root page through the cache: the root
    /// page is `page`, the other cached pages are unchanged, and the root is
    /// the most recently used page.
    pub open spec fn after_access(&self, before: &Self, page: Page) -> bool {
        &&& self.wf()
        &&& self.root_id() == before.root_id()
        &&& self.pool()@ == before.pool()@.insert(before.root_id(), page)
        &&& self.pool().lru_order() == touched(before.pool().lru_order(), before.root_id())
        &&& self.pool().capacity_spec() == before.pool().capacity_spec()
    }

    /// Makes a tree out of a cache that holds page 0. A page that is all zero
    /// is replaced by the page of an empty leaf.
    pub fn new(buffer_pool: BufferPool) -> (tree: Self)
        requires
            buffer_pool.wf(),
            buffer_pool@.contains_key(0),
        ensures
            tree.wf(),
            tree.root_id() == 0,
            tree.pool().lru_order() == buffer_pool.lru_order(),
            tree.pool().capacity_spec() == buffer_pool.capacity_spec(),
            buffer_pool@[0].data@ == zero_bytes(PAGE_SIZE as nat) ==> {
                &&& tree.pool()@ == buffer_pool@.insert(
                    0,
                    Page { id: 0, data: tree.root_page().data, is_dirty: true },
                )
                &&& tree.root_page().data@ == page_image(empty_leaf_model())
            },
            buffer_pool@[0].data@ != zero_bytes(PAGE_SIZE as nat) ==> tree.pool()@ == buffer_pool@,
    {
        let mut buffer_pool = buffer_pool;
        proof {
            buffer_pool.lemma_wf();
        }
        let root: PageId = 0;
        if all_zero(buffer_pool.page(root)) {
            let node = BTreeNode::empty_leaf();
            proof {
                assert(node_entries(node@) =~= Seq::<(Seq<u8>, Seq<u8>)>::empty());
                assert(entries_bytes(node_entries(node@)) =~= Seq::<u8>::empty());
            }
            let page = node.to_page(root);
            buffer_pool.replace_page(page);
        }
        Self { root, buffer_pool }
    }

    /// The page cache, so that its modified pages can be written to disk.
    pub fn buffer_pool(&self) -> (pool: &BufferPool)
        ensures
            *pool == self.pool(),
    {
        &self.buffer_pool
    }

    /// Whether `insert(key, value)` may be called: the root node is a leaf and
    /// the leaf after the insertion fits in a page.
    pub fn can_insert(&self, key: &[u8], value: &[u8]) -> (b: bool)
        requires
            self.wf(),
        ensures
            b == (self.node().node_type == NodeType::Leaf && fits_in_page(
                node_insert(self.node(), key@, value@),
            )),
    {
        let mut node = BTreeNode::from_page(self.buffer_pool.page(self.root));
        proof {
            lemma_decoded_node(self.root_page().data@);
        }
        if node.node_type != NodeType::Leaf {
            return false;
        }
        insert_entry(&mut node, copy_bytes(key), copy_bytes(value));
        node.fits_in_page()
    }

    /// After recording that `page_id` was written to disk: that page is
    /// clean and everything else is unchanged.
    pub open spec fn cleaned(&self, before: &Self, page_id: PageId) -> bool {
        &&& self.wf()
        &&& self.root_id() == before.root_id()
        &&& self.pool()@ == before.pool()@.insert(
            page_id,
            Page { is_dirty: false, ..before.pool()@[page_id] },
        )
        &&& self.pool().lru_order() == before.pool().lru_order()
        &&& self.pool().capacity_spec() == before.pool().capacity_spec()
        &&& self.node() == before.node()
    }

    /// The node held by the root page.
    pub fn root_node(&self) -> (node: BTreeNode)
        requires
            self.wf(),
        ensures
            node@ == self.node(),
    {
        BTreeNode::from_page(self.buffer_pool.page(self.root))
    }

    /// Records that the cached page `page_id` was written to disk.
    pub fn mark_clean(&mut self, page_id: PageId)
        requires
            old(self).wf(),
            old(self).pool()@.contains_key(page_id),
        ensures
            final(self).cleaned(old(self), page_id),
    {
        proof {
            self.buffer_pool.lemma_wf();
        }
        self.buffer_pool.mark_clean(page_id);
        proof {
            if page_id == self.root {
                assert(self.buffer_pool@[self.root].data == old(self).buffer_pool@[self.root].data);
            } else {
                assert(self.buffer_pool@[self.root] == old(self).buffer_pool@[self.root]);
            }
        }
    }

    /// Marks the root page as the most recently used, as every access does.
    fn access_root(&mut self)
        requires
            old(self).wf(),
        ensures
            final(self).wf(),
            final(self).root == old(self).root,
            final(self).buffer_pool@ == old(self).buffer_pool@,
            final(self).buffer_pool.lru_order() == touched(old(self).buffer_pool.lru_order(), old(self).root),
            final(self).buffer_pool.capacity_spec() == old(self).buffer_pool.capacity_spec(),
    {
        let step = self.buffer_pool.begin_fetch(self.root);
        match step {
            FetchStep::Hit => {},
            FetchStep::Miss { .. } => {
                assert(false);
            },
        }
    }

    /// Puts `value` under `key` in the root leaf and writes the leaf back to
    /// the root page. Without 256 keys or more in the result, the root then
    /// holds exactly the leaf after the insertion.
    pub fn insert(&mut self, key: Vec<u8>, value: Vec<u8>)
        requires
            old(self).wf(),
            old(self).node().node_type == NodeType::Leaf,
            fits_in_page(node_insert(old(self).node(), key@, value@)),
        ensures
            final(self).after_access(
                old(self),
                Page {
                    id: old(self).root_id(),
                    data: final(self).root_page().data,
                    is_dirty: true,
                },
            ),
            final(self).root_page().data@ == page_image(node_insert(old(self).node(), key@, value@)),
            node_insert(old(self).node(), key@, value@).keys.len() < 256 ==> final(self).node()
                == node_insert(old(self).node(), key@, value@),
    {
        let ghost k = key@;
        let ghost v = value@;
        self.access_root();
        let mut node = BTreeNode::from_page(self.buffer_pool.page(self.root));
        proof {
            lemma_decoded_node(old(self).root_page().data@);
        }
        insert_entry(&mut node, key, value);
        let page = node.to_page(self.root);
        let ghost image = page.data;
        self.buffer_pool.replace_page(page);
        proof {
            let n = node_insert(old(self).node(), k, v);
            lemma_first_match(old(self).node().keys, equals(k));
            lemma_first_match(old(self).node().keys, comes_after(k));
            if n.keys.len() < 256 {
                lemma_page_roundtrip(n);
            }
            assert(self.buffer_pool@[self.root].data == image);
        }
    }

    /// The value stored under `key` in the root leaf.
    pub fn get(&mut self, key: &[u8]) -> (r: Option<Vec<u8>>)
        requires
            old(self).wf(),
        ensures
            final(self).after_access(old(self), old(self).root_page()),
            opt_bytes(r) == node_get(old(self).node(), key@),
    {
        self.access_root();
        proof {
            lemma_decoded_node(old(self).root_page().data@);
            assert(self.buffer_pool@.insert(self.root, old(self).root_page()) =~= self.buffer_pool@);
        }
        let node = BTreeNode::from_page(self.buffer_pool.page(self.root));
        lookup(&node, key)
    }

    /// Removes `key` and its value from the root leaf; when it was there, the
    /// leaf is written back to the root page.
    pub fn delete(&mut self, key: &[u8])
        requires
            old(self).wf(),
        ensures
            key_index(old(self).node().keys, key@) < old(self).node().keys.len() ==> {
                &&& final(self).after_access(
                    old(self),
                    Page {
                        id: old(self).root_id(),
                        data: final(self).root_page().data,
                        is_dirty: true,
                    },
                )
                &&& final(self).root_page().data@ == page_image(node_delete(old(self).node(), key@))
            },
            key_index(old(self).node().keys, key@) >= old(self).node().keys.len()
                ==> final(self).after_access(old(self), old(self).root_page()),
            final(self).node() == node_delete(old(self).node(), key@),
    {
        self.access_root();
        let mut node = BTreeNode::from_page(self.buffer_pool.page(self.root));
        proof {
            lemma_decoded_node(old(self).root_page().data@);
            assert(self.buffer_pool@.insert(self.root, old(self).root_page()) =~= self.buffer_pool@);
        }
        let ghost before = node@;
        if remove_entry(&mut node, key) {
            proof {
                let i = key_index(before.keys, key@) as int;
                let pairs = node_entries(before);
                assert(node_entries(node@) =~= pairs.remove(i));
                lemma_entries_bytes_remove(pairs, i);
                lemma_page_roundtrip(node@);
            }
            let page = node.to_page(self.root);
            let ghost image = page.data;
            self.buffer_pool.replace_page(page);
            assert(self.buffer_pool@[self.root].data == image);
        }
    }

    /// The entries of the root leaf whose key begins with `prefix`, in order.
    pub fn scan_prefix(&mut self, prefix: &[u8]) -> (r: Vec<(Vec<u8>, Vec<u8>)>)
        requires
            old(self).wf(),
        ensures
            final(self).after_access(old(self), old(self).root_page()),
            pairs_view(r@) == node_scan(old(self).node(), prefix@),
    {
        self.access_root();
        proof {
            assert(self.buffer_pool@.insert(self.root, old(self).root_page()) =~= self.buffer_pool@);
        }
        let node = BTreeNode::from_page(self.buffer_pool.page(self.root));
        scan(&node, prefix)
    }
}

} // verus!
