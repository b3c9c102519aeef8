//! A B-tree node and its conversion to and from a page.
use vstd::prelude::*;
use crate::btree::codec::{
    entries_bytes, entry_bytes, lemma_entries_bytes_concat, lemma_entries_bytes_push, lemma_entry_lengths_bounded,
    lemma_parse_bound, lemma_parse_encoded, pair_keys, pair_values, parse_entries, prepend_parsed, zip_entries,
};
use crate::storage::page::{zero_bytes, Page, PageId, PAGE_SIZE};

verus! {

/// Whether a node holds entries (a leaf) or children (an internal node).
#[derive(Debug, Clone, Copy, PartialEq, Eq, Structural)]
pub enum NodeType {
    Leaf,
    Internal,
}

/// A node: its type, its keys with the value at the same position, and the
/// identifiers of its children.
#[derive(Debug)]
pub struct BTreeNode {
    pub node_type: NodeType,
    pub keys: Vec<Vec<u8>>,
    pub values: Vec<Vec<u8>>,
    pub children: Vec<PageId>,
}

/// The mathematical content of a node.
#[verifier::ext_equal]
pub struct NodeModel {
    pub node_type: NodeType,
    pub keys: Seq<Seq<u8>>,
    pub values: Seq<Seq<u8>>,
    pub children: Seq<PageId>,
}

/// The byte strings held by a vector of byte vectors.
pub open spec fn byte_strings(v: Seq<Vec<u8>>) -> Seq<Seq<u8>> {
    v.map_values(|b: Vec<u8>| b@)
}

impl View for BTreeNode {
    type V = NodeModel;

    open spec fn view(&self) -> NodeModel {
        NodeModel {
            node_type: self.node_type,
            keys: byte_strings(self.keys@),
            values: byte_strings(self.values@),
            children: self.children@,
        }
    }
}

/// A leaf with no entries and no children.
pub open spec fn empty_leaf_model() -> NodeModel {
    NodeModel { node_type: NodeType::Leaf, keys: seq![], values: seq![], children: seq![] }
}

/// The byte that records a node type.
pub open spec fn node_type_byte(t: NodeType) -> u8 {
    match t {
        NodeType::Leaf => 0u8,
        NodeType::Internal => 1u8,
    }
}

/// The pairs that a page holds for a node: keys and values at equal
/// positions, as far as both go.
pub open spec fn node_entries(n: NodeModel) -> Seq<(Seq<u8>, Seq<u8>)> {
    zip_entries(n.keys, n.values)
}

/// The node type byte, the key count modulo 256, then the encoded pairs.
pub open spec fn node_bytes(n: NodeModel) -> Seq<u8> {
    seq![node_type_byte(n.node_type), (n.keys.len() % 256) as u8] + entries_bytes(node_entries(n))
}

/// Whether the encoding of the node fits in one page.
pub open spec fn fits_in_page(n: NodeModel) -> bool {
    node_bytes(n).len() <= PAGE_SIZE
}

/// The page contents of a node: its encoding followed by zeros.
pub open spec fn page_image(n: NodeModel) -> Seq<u8> {
    node_bytes(n) + zero_bytes((PAGE_SIZE - node_bytes(n).len()) as nat)
}

/// The node that a page's bytes hold. A first byte other than 0 or 1, or a
/// pair that runs past the end of the page, gives an empty leaf.
pub open spec fn decode_page(data: Seq<u8>) -> NodeModel {
    let tag = data[0];
    if tag != 0 && tag != 1 {
        empty_leaf_model()
    } else {
        match parse_entries(data, 2, data[1] as nat) {
            Some((keys, values)) => NodeModel {
                node_type: if tag == 0 { NodeType::Leaf } else { NodeType::Internal },
                keys,
                values,
                children: seq![],
            },
            None => empty_leaf_model(),
        }
    }
}

/// A node written to a page reads back unchanged, provided it is a leaf or
/// an internal node with no children, has as many keys as values, fewer
/// than 256 keys, and fits in the page.
pub proof fn lemma_page_roundtrip(n: NodeModel)
    requires
        n.keys.len() == n.values.len(),
        n.keys.len() < 256,
        n.children.len() == 0,
        fits_in_page(n),
    ensures
        decode_page(page_image(n)) == n,
{
    let data = page_image(n);
    let pairs = node_entries(n);
    let body = entries_bytes(pairs);
    let header = seq![node_type_byte(n.node_type), (n.keys.len() % 256) as u8];
    let zeros = zero_bytes((PAGE_SIZE - node_bytes(n).len()) as nat);
    assert(data == header + body + zeros);
    assert(data[0] == node_type_byte(n.node_type) && data[1] == n.keys.len()) by {
        assert(data[0] == header[0]);
        assert(data[1] == header[1]);
    }
    assert(data.subrange(2, 2 + body.len() as int) =~= body);
    assert forall|i: int| 0 <= i < pairs.len() implies #[trigger] pairs[i].0.len() < 65536
        && pairs[i].1.len() < 65536 by {
        lemma_entry_lengths_bounded(pairs, i);
    }
    assert(parse_entries(data, 2, n.keys.len()) == Some((n.keys, n.values))) by {
        lemma_parse_encoded(data, 2, pairs);
        assert(pair_keys(pairs) =~= n.keys);
        assert(pair_values(pairs) =~= n.values);
    }
    assert(decode_page(data) =~= n);
}

/// A node read from a page has as many keys as values, fewer than 256 keys,
/// no children, and fits in a page.
pub proof fn lemma_decoded_node(data: Seq<u8>)
    requires
        data.len() == PAGE_SIZE,
    ensures
        decode_page(data).keys.len() == decode_page(data).values.len(),
        decode_page(data).keys.len() < 256,
        decode_page(data).children.len() == 0,
        fits_in_page(decode_page(data)),
{
    let n = decode_page(data);
    let tag = data[0];
    if (tag == 0 || tag == 1) && parse_entries(data, 2, data[1] as nat) is Some {
        lemma_parse_bound(data, 2, data[1] as nat);
    } else {
        assert(node_entries(n) =~= Seq::<(Seq<u8>, Seq<u8>)>::empty());
        assert(entries_bytes(node_entries(n)) =~= Seq::<u8>::empty());
    }
}

/// Where the `i`-th pair of a node starts in its page: after the two header
/// bytes and, for each earlier pair, four length bytes and its key and value.
pub open spec fn entry_offset(n: NodeModel, i: int) -> int
    decreases i,
{
    if i <= 0 {
        2
    } else {
        entry_offset(n, i - 1) + 4 + n.keys[i - 1].len() + n.values[i - 1].len()
    }
}

proof fn lemma_entry_offset(n: NodeModel, i: int)
    requires
        0 <= i <= node_entries(n).len(),
    ensures
        entry_offset(n, i) == 2 + entries_bytes(node_entries(n).take(i)).len(),
    decreases i,
{
    let pairs = node_entries(n);
    if i == 0 {
        assert(pairs.take(0) =~= Seq::<(Seq<u8>, Seq<u8>)>::empty());
    } else {
        lemma_entry_offset(n, i - 1);
        lemma_entries_bytes_push(pairs, i - 1);
    }
}

/// The layout of a node in its page: the first byte is 0 for a leaf and 1
/// for an internal node, the second is the number of keys modulo 256; the
/// `i`-th pair is its key length in two little-endian bytes, the key, its
/// value length in two little-endian bytes and the value; the rest of the
/// page is zero.
pub proof fn lemma_page_layout(n: NodeModel, i: int)
    requires
        fits_in_page(n),
        0 <= i < n.keys.len(),
        i < n.values.len(),
    ensures
        ({
            let d = page_image(n);
            let o = entry_offset(n, i);
            let kl = n.keys[i].len() as int;
            let vl = n.values[i].len() as int;
            &&& d.len() == PAGE_SIZE
            &&& d[0] == (if n.node_type == NodeType::Leaf { 0u8 } else { 1u8 })
            &&& d[1] as int == n.keys.len() % 256
            &&& o + 4 + kl + vl <= PAGE_SIZE
            &&& d[o] + 256 * d[o + 1] == kl
            &&& d.subrange(o + 2, o + 2 + kl) == n.keys[i]
            &&& d[o + 2 + kl] + 256 * d[o + 3 + kl] == vl
            &&& d.subrange(o + 4 + kl, o + 4 + kl + vl) == n.values[i]
        }),
        forall|x: int| node_bytes(n).len() <= x < PAGE_SIZE ==> #[trigger] page_image(n)[x] == 0,
{
    let d = page_image(n);
    let pairs = node_entries(n);
    let header = seq![node_type_byte(n.node_type), (n.keys.len() % 256) as u8];
    let body = entries_bytes(pairs);
    let before = entries_bytes(pairs.take(i));
    let e = entry_bytes(n.keys[i], n.values[i]);
    let o = entry_offset(n, i);
    let zeros = zero_bytes((PAGE_SIZE - node_bytes(n).len()) as nat);
    assert(d == header + body + zeros);
    assert(d[0] == header[0] && d[1] == header[1]);
    assert(o == 2 + before.len() && o + e.len() <= 2 + body.len()) by {
        lemma_entry_offset(n, i);
        lemma_entries_bytes_push(pairs, i);
        assert(pairs[i] == (n.keys[i], n.values[i]));
    }
    assert(d.subrange(o, o + e.len()) == e) by {
        lemma_entry_offset(n, i);
        lemma_entries_bytes_push(pairs, i);
        assert(pairs[i] == (n.keys[i], n.values[i]));
        assert(pairs =~= pairs.take(i + 1) + pairs.skip(i + 1));
        lemma_entries_bytes_concat(pairs.take(i + 1), pairs.skip(i + 1));
        let after = entries_bytes(pairs.skip(i + 1));
        assert(body == before + e + after);
        assert forall|x: int| 0 <= x < e.len() implies #[trigger] d.subrange(o, o + e.len())[x] == e[x] by {
            assert(d[o + x] == body[before.len() + x]);
            assert(body[before.len() + x] == (before + e + after)[before.len() + x]);
        }
        assert(d.subrange(o, o + e.len()) =~= e);
    }
    assert(n.keys[i].len() < 65536 && n.values[i].len() < 65536) by {
        lemma_entry_lengths_bounded(pairs, i);
        assert(pairs[i] == (n.keys[i], n.values[i]));
    }
    lemma_entry_bytes_at(d, o, n.keys[i], n.values[i]);
    assert forall|x: int| node_bytes(n).len() <= x < PAGE_SIZE implies #[trigger] page_image(n)[x] == 0 by {
        assert(page_image(n)[x] == zeros[x - node_bytes(n).len()]);
    }
}

/// The bytes of an encoded pair, found at offset `o`.
proof fn lemma_entry_bytes_at(d: Seq<u8>, o: int, k: Seq<u8>, v: Seq<u8>)
    requires
        0 <= o,
        o + entry_bytes(k, v).len() <= d.len(),
        d.subrange(o, o + entry_bytes(k, v).len()) == entry_bytes(k, v),
        k.len() < 65536,
        v.len() < 65536,
    ensures
        ({
            let kl = k.len() as int;
            let vl = v.len() as int;
            &&& d[o] + 256 * d[o + 1] == kl
            &&& d.subrange(o + 2, o + 2 + kl) == k
            &&& d[o + 2 + kl] + 256 * d[o + 3 + kl] == vl
            &&& d.subrange(o + 4 + kl, o + 4 + kl + vl) == v
        }),
{
    let e = entry_bytes(k, v);
    let kl = k.len() as int;
    let vl = v.len() as int;
    assert forall|x: int| 0 <= x < e.len() implies #[trigger] d[o + x] == e[x] by {
        assert(d.subrange(o, o + e.len())[x] == e[x]);
    }
    assert(d[o] == e[0] && d[o + 1] == e[1]);
    assert(d[o + 2 + kl] == e[2 + kl] && d[o + 3 + kl] == e[3 + kl]);
    assert(d.subrange(o + 2, o + 2 + kl) =~= k) by {
        assert forall|x: int| 0 <= x < kl implies d.subrange(o + 2, o + 2 + kl)[x] == k[x] by {
            assert(d[o + 2 + x] == e[2 + x]);
        }
    }
    assert(d.subrange(o + 4 + kl, o + 4 + kl + vl) =~= v) by {
        assert forall|x: int| 0 <= x < vl implies d.subrange(o + 4 + kl, o + 4 + kl + vl)[x] == v[x] by {
            assert(d[o + 4 + kl + x] == e[4 + kl + x]);
        }
    }
}

/// Writes `src` into `data` from position `off`.
fn write_bytes(data: &mut [u8; 4096], off: usize, src: &Vec<u8>)
    requires
        off + src@.len() <= PAGE_SIZE,
    ensures
        final(data)@ == old(data)@.take(off as int) + src@ + old(data)@.skip(off + src@.len()),
{
    let ghost before = data@;
    let mut j: usize = 0;
    while j < src.len()
        invariant
            off + src@.len() <= PAGE_SIZE,
            j <= src@.len(),
            data@.len() == PAGE_SIZE,
            forall|x: int| 0 <= x < off ==> #[trigger] data@[x] == before[x],
            forall|x: int| off <= x < off + j ==> #[trigger] data@[x] == src@[x - off],
            forall|x: int| off + j <= x < PAGE_SIZE ==> #[trigger] data@[x] == before[x],
        decreases src@.len() - j,
    {
        data[off + j] = src[j];
        j = j + 1;
    }
    assert(data@ =~= before.take(off as int) + src@ + before.skip(off + src@.len()));
}

/// The bytes of one encoded pair.
fn encode_entry(key: &Vec<u8>, value: &Vec<u8>) -> (out: Vec<u8>)
    requires
        key@.len() < 65536,
        value@.len() < 65536,
    ensures
        out@ == entry_bytes(key@, value@),
{
    let mut out: Vec<u8> = Vec::new();
    let key_len = key.len();
    let value_len = value.len();
    out.push((key_len % 256) as u8);
    out.push((key_len / 256) as u8);
    out.extend_from_slice(key.as_slice());
    out.push((value_len % 256) as u8);
    out.push((value_len / 256) as u8);
    out.extend_from_slice(value.as_slice());
    assert(out@ =~= entry_bytes(key@, value@));
    out
}

/// The bytes of `data` from `start` for `len` bytes.
fn copy_range(data: &[u8; 4096], start: usize, len: usize) -> (out: Vec<u8>)
    requires
        start + len <= PAGE_SIZE,
    ensures
        out@ == data@.subrange(start as int, start + len),
{
    let mut out: Vec<u8> = Vec::new();
    let mut j: usize = 0;
    while j < len
        invariant
            start + len <= PAGE_SIZE,
            j <= len,
            out@ == data@.subrange(start as int, start + j),
        decreases len - j,
    {
        out.push(data[start + j]);
        j = j + 1;
        assert(out@ =~= data@.subrange(start as int, start + j));
    }
    out
}

impl BTreeNode {
    /// A leaf with no entries.
    pub fn empty_leaf() -> (node: Self)
        ensures
            node@ == empty_leaf_model(),
    {
        let node = Self {
            node_type: NodeType::Leaf,
            keys: Vec::new(),
            values: Vec::new(),
            children: Vec::new(),
        };
        assert(node@ =~= empty_leaf_model());
        node
    }

    /// Whether the encoding of this node fits in one page.
    pub fn fits_in_page(&self) -> (b: bool)
        ensures
            b == fits_in_page(self@),
    {
        let n = if self.keys.len() <= self.values.len() { self.keys.len() } else { self.values.len() };
        let ghost pairs = node_entries(self@);
        let mut total: usize = 2;
        let mut i: usize = 0;
        while i < n
            invariant
                n == pairs.len(),
                pairs == node_entries(self@),
                i <= n,
                total == 2 + entries_bytes(pairs.take(i as int)).len(),
                total <= PAGE_SIZE,
            decreases n - i,
        {
            proof {
                lemma_entries_bytes_push(pairs, i as int);
            }
            let key_len = self.keys[i].len();
            let value_len = self.values[i].len();
            assert(pairs[i as int].0 == self.keys@[i as int]@);
            assert(pairs[i as int].1 == self.values@[i as int]@);
            if key_len > PAGE_SIZE || value_len > PAGE_SIZE {
                return false;
            }
            total = total + 4 + key_len + value_len;
            if total > PAGE_SIZE {
                return false;
            }
            i = i + 1;
        }
        assert(pairs.take(n as int) =~= pairs);
        true
    }

    /// The page with identifier `page_id` that holds this node, marked dirty.
    /// Only pairs present in both `keys` and `values` are written; the key
    /// count is recorded modulo 256.
    pub fn to_page(&self, page_id: PageId) -> (page: Page)
        requires
            fits_in_page(self@),
        ensures
            page.id == page_id,
            page.is_dirty,
            page.data@ == page_image(self@),
    {
        let mut page = Page::new(page_id);
        page.data[0] = match self.node_type {
            NodeType::Leaf => 0u8,
            NodeType::Internal => 1u8,
        };
        page.data[1] = (self.keys.len() % 256) as u8;
        let ghost header = seq![node_type_byte(self.node_type), (self@.keys.len() % 256) as u8];
        let ghost pairs = node_entries(self@);
        assert(page.data@ =~= header + entries_bytes(pairs.take(0)) + zero_bytes(
            (PAGE_SIZE - 2) as nat,
        ));
        let n = if self.keys.len() <= self.values.len() { self.keys.len() } else { self.values.len() };
        let mut offset: usize = 2;
        let mut i: usize = 0;
        while i < n
            invariant
                n == pairs.len(),
                pairs == node_entries(self@),
                header.len() == 2,
                fits_in_page(self@),
                node_bytes(self@) == header + entries_bytes(pairs),
                i <= n,
                offset == 2 + entries_bytes(pairs.take(i as int)).len(),
                offset <= PAGE_SIZE,
                page.id == page_id,
                page.data@ == header + entries_bytes(pairs.take(i as int)) + zero_bytes(
                    (PAGE_SIZE - offset) as nat,
                ),
            decreases n - i,
        {
            proof {
                lemma_entries_bytes_push(pairs, i as int);
            }
            let key = &self.keys[i];
            let value = &self.values[i];
            assert(pairs[i as int].0 == key@);
            assert(pairs[i as int].1 == value@);
            let entry = encode_entry(key, value);
            let ghost before = page.data@;
            write_bytes(&mut page.data, offset, &entry);
            let ghost prefix = header + entries_bytes(pairs.take(i as int));
            assert(before.take(offset as int) =~= prefix);
            assert(before.skip(offset + entry@.len()) =~= zero_bytes(
                (PAGE_SIZE - offset - entry@.len()) as nat,
            ));
            offset = offset + entry.len();
            i = i + 1;
            assert(page.data@ =~= header + entries_bytes(pairs.take(i as int)) + zero_bytes(
                (PAGE_SIZE - offset) as nat,
            ));
        }
        assert(pairs.take(n as int) =~= pairs);
        assert(page.data@ =~= page_image(self@));
        page.mark_dirty();
        page
    }

    /// The node held by a page; an unknown node type byte, or a pair that
    /// runs past the end of the page, gives an empty leaf. The children are
    /// not stored in pages, so the result has none.
    pub fn from_page(page: &Page) -> (node: Self)
        ensures
            node@ == decode_page(page.data@),
    {
        let tag = page.data[0];
        let node_type = if tag == 0 {
            NodeType::Leaf
        } else if tag == 1 {
            NodeType::Internal
        } else {
            return Self::empty_leaf();
        };
        let num_keys = page.data[1] as usize;
        let ghost data = page.data@;
        let mut keys: Vec<Vec<u8>> = Vec::new();
        let mut values: Vec<Vec<u8>> = Vec::new();
        let mut offset: usize = 2;
        let mut i: usize = 0;
        assert(prepend_parsed(seq![], seq![], parse_entries(data, 2, num_keys as nat))
            =~= parse_entries(data, 2, num_keys as nat)) by {
            match parse_entries(data, 2, num_keys as nat) {
                Some((ks, vs)) => {
                    assert(Seq::<Seq<u8>>::empty() + ks =~= ks);
                    assert(Seq::<Seq<u8>>::empty() + vs =~= vs);
                },
                None => {},
            }
        }
        while i < num_keys
            invariant
                data == page.data@,
                data.len() == PAGE_SIZE,
                num_keys == data[1],
                i <= num_keys,
                offset <= PAGE_SIZE,
                keys@.len() == i,
                values@.len() == i,
                parse_entries(data, 2, num_keys as nat) == prepend_parsed(
                    byte_strings(keys@),
                    byte_strings(values@),
                    parse_entries(data, offset as int, (num_keys - i) as nat),
                ),
            decreases num_keys - i,
        {
            if offset + 2 > PAGE_SIZE {
                return Self::empty_leaf();
            }
            let key_len = page.data[offset] as usize + page.data[offset + 1] as usize * 256;
            offset = offset + 2;
            if offset + key_len > PAGE_SIZE {
                return Self::empty_leaf();
            }
            let key = copy_range(&page.data, offset, key_len);
            offset = offset + key_len;
            if offset + 2 > PAGE_SIZE {
                return Self::empty_leaf();
            }
            let value_len = page.data[offset] as usize + page.data[offset + 1] as usize * 256;
            offset = offset + 2;
            if offset + value_len > PAGE_SIZE {
                return Self::empty_leaf();
            }
            let value = copy_range(&page.data, offset, value_len);
            offset = offset + value_len;
            let ghost old_keys = byte_strings(keys@);
            let ghost old_values = byte_strings(values@);
            keys.push(key);
            values.push(value);
            i = i + 1;
            proof {
                assert(byte_strings(keys@) =~= old_keys.push(key@));
                assert(byte_strings(values@) =~= old_values.push(value@));
                match parse_entries(data, offset as int, (num_keys - i) as nat) {
                    Some((ks, vs)) => {
                        assert(old_keys + (seq![key@] + ks) =~= old_keys.push(key@) + ks);
                        assert(old_values + (seq![value@] + vs) =~= old_values.push(value@) + vs);
                    },
                    None => {},
                }
            }
        }
        let node = Self { node_type, keys, values, children: Vec::new() };
        assert(byte_strings(node.keys@) + Seq::<Seq<u8>>::empty() =~= byte_strings(node.keys@));
        assert(byte_strings(node.values@) + Seq::<Seq<u8>>::empty() =~= byte_strings(node.values@));
        assert(node@ =~= decode_page(data));
        node
    }
}

} // verus!
