//! The database: a primary tree from keys to values and a secondary index
//! from index keys to primary keys. Each update is described by the log
//! records that the write-ahead log holds for it.
use vstd::prelude::*;
use crate::btree::keys::copy_bytes;
use crate::btree::codec::lemma_entries_bytes_remove;
use crate::btree::leaf::{
    comes_after, equals, key_index, keys_sorted, lemma_delete_idempotent, lemma_delete_keeps_sorted,
    lemma_first_match, lemma_get_after_delete, lemma_get_after_insert, lemma_insert_idempotent,
    lemma_insert_keeps_sorted, lemma_sorted_distinct, node_delete, node_get, node_insert, node_scan,
};
use crate::btree::node::{
    decode_page, fits_in_page, lemma_page_roundtrip, node_entries, page_image, NodeModel, NodeType,
};
use crate::wal::log::{
    lemma_decode_torn_log, lemma_decode_written_log, log_bytes, parse_log, record_bytes, record_fits, records,
    WalError,
};
use crate::btree::tree::{opt_bytes, pairs_view, BTree};
use crate::btree::node::BTreeNode;
use crate::storage::page::{Page, PageId};
use crate::tx::transaction::{Transaction, TransactionManager};
use crate::wal::log::{LogRecord, WALEntry};

verus! {

/// The contents of the database: the node of each tree.
pub struct DbModel {
    pub primary: NodeModel,
    pub secondary: NodeModel,
}

/// The node read back from the page that a node was written to.
#[verifier::opaque]
pub open spec fn written(n: NodeModel) -> NodeModel {
    decode_page(page_image(n))
}

/// The database after applying one log record.
pub open spec fn apply_record(m: DbModel, r: LogRecord) -> DbModel {
    match r {
        LogRecord::Put(k, v) => DbModel { primary: written(node_insert(m.primary, k, v)), ..m },
        LogRecord::Delete(k) => DbModel { primary: node_delete(m.primary, k), ..m },
        LogRecord::IndexPut(i, p) => DbModel { secondary: written(node_insert(m.secondary, i, p)), ..m },
        LogRecord::IndexDelete(i) => DbModel { secondary: node_delete(m.secondary, i), ..m },
    }
}

/// The database after applying log records in order.
pub open spec fn apply_records(m: DbModel, rs: Seq<LogRecord>) -> DbModel
    decreases rs.len(),
{
    if rs.len() == 0 {
        m
    } else {
        apply_records(apply_record(m, rs[0]), rs.drop_first())
    }
}

/// Applying two records applies the first, then the second.
pub proof fn lemma_apply_two(m: DbModel, r1: LogRecord, r2: LogRecord)
    ensures
        apply_records(m, seq![r1, r2]) == apply_record(apply_record(m, r1), r2),
{
    let rs = seq![r1, r2];
    assert(rs.drop_first() =~= seq![r2]);
    assert(rs.drop_first().drop_first() =~= Seq::<LogRecord>::empty());
    assert(seq![r2].drop_first() =~= Seq::<LogRecord>::empty());
    let m1 = apply_record(m, r1);
    let m2 = apply_record(m1, r2);
    assert(apply_records(m2, Seq::<LogRecord>::empty()) == m2);
    assert(apply_records(m1, seq![r2]) == apply_records(m2, seq![r2].drop_first()));
    assert(apply_records(m, rs) == apply_records(m1, rs.drop_first()));
}

/// Whether a put of `key` and `value` can be made in a tree's node: it is a
/// leaf and the leaf after the put fits in a page.
pub open spec fn insertable(n: NodeModel, key: Seq<u8>, value: Seq<u8>) -> bool {
    n.node_type == NodeType::Leaf && fits_in_page(node_insert(n, key, value))
}

/// Whether a record can be applied to the database.
pub open spec fn record_applicable(m: DbModel, r: LogRecord) -> bool {
    match r {
        LogRecord::Put(k, v) => insertable(m.primary, k, v),
        LogRecord::IndexPut(i, p) => insertable(m.secondary, i, p),
        _ => true,
    }
}

/// A node as the database keeps it: as many keys as values, no children,
/// keys in strictly increasing order, fewer than 256 keys, and an encoding
/// that fits in a page.
pub open spec fn node_valid(n: NodeModel) -> bool {
    &&& n.keys.len() == n.values.len()
    &&& n.children.len() == 0
    &&& keys_sorted(n.keys)
    &&& n.keys.len() < 256
    &&& fits_in_page(n)
}

/// Both nodes of the database are valid.
pub open spec fn model_valid(m: DbModel) -> bool {
    node_valid(m.primary) && node_valid(m.secondary)
}

/// Whether a record keeps each node under 256 keys.
pub open spec fn record_keeps_small(m: DbModel, r: LogRecord) -> bool {
    match r {
        LogRecord::Put(k, v) => node_insert(m.primary, k, v).keys.len() < 256,
        LogRecord::IndexPut(i, p) => node_insert(m.secondary, i, p).keys.len() < 256,
        _ => true,
    }
}

proof fn lemma_insert_valid(n: NodeModel, key: Seq<u8>, value: Seq<u8>)
    requires
        node_valid(n),
        n.node_type == NodeType::Leaf,
        fits_in_page(node_insert(n, key, value)),
        node_insert(n, key, value).keys.len() < 256,
    ensures
        written(node_insert(n, key, value)) == node_insert(n, key, value),
        node_valid(node_insert(n, key, value)),
{
    reveal(written);
    lemma_first_match(n.keys, equals(key));
    lemma_first_match(n.keys, comes_after(key));
    lemma_insert_keeps_sorted(n, key, value);
    lemma_page_roundtrip(node_insert(n, key, value));
}

proof fn lemma_delete_valid(n: NodeModel, key: Seq<u8>)
    requires
        node_valid(n),
    ensures
        node_valid(node_delete(n, key)),
{
    lemma_first_match(n.keys, equals(key));
    lemma_delete_keeps_sorted(n, key);
    let i = key_index(n.keys, key) as int;
    if i < n.keys.len() {
        let m = node_delete(n, key);
        assert(node_entries(m) =~= node_entries(n).remove(i));
        lemma_entries_bytes_remove(node_entries(n), i);
    }
}

/// Applying a record to a valid database keeps it valid, provided a put
/// leaves fewer than 256 keys in its node.
pub proof fn lemma_apply_keeps_valid(m: DbModel, r: LogRecord)
    requires
        model_valid(m),
        record_applicable(m, r),
        record_keeps_small(m, r),
    ensures
        model_valid(apply_record(m, r)),
{
    match r {
        LogRecord::Put(k, v) => lemma_insert_valid(m.primary, k, v),
        LogRecord::Delete(k) => lemma_delete_valid(m.primary, k),
        LogRecord::IndexPut(i, p) => lemma_insert_valid(m.secondary, i, p),
        LogRecord::IndexDelete(i) => lemma_delete_valid(m.secondary, i),
    }
}

/// Applying a record a second time changes nothing, so a record that was
/// applied before a crash can be replayed from the log.
pub proof fn lemma_apply_idempotent(m: DbModel, r: LogRecord)
    requires
        model_valid(m),
        record_applicable(m, r),
        record_keeps_small(m, r),
    ensures
        apply_record(apply_record(m, r), r) == apply_record(m, r),
{
    match r {
        LogRecord::Put(k, v) => {
            lemma_insert_valid(m.primary, k, v);
            lemma_insert_idempotent(m.primary, k, v);
        },
        LogRecord::Delete(k) => {
            lemma_sorted_distinct(m.primary.keys);
            lemma_delete_idempotent(m.primary, k);
        },
        LogRecord::IndexPut(i, p) => {
            lemma_insert_valid(m.secondary, i, p);
            lemma_insert_idempotent(m.secondary, i, p);
        },
        LogRecord::IndexDelete(i) => {
            lemma_sorted_distinct(m.secondary.keys);
            lemma_delete_idempotent(m.secondary, i);
        },
    }
}

/// After a put, reading its key gives its value and reading another key
/// gives what it gave before (when the leaf stays under 256 keys).
pub proof fn lemma_get_after_put(m: DbModel, key: Seq<u8>, value: Seq<u8>, other: Seq<u8>)
    requires
        model_valid(m),
        insertable(m.primary, key, value),
        node_insert(m.primary, key, value).keys.len() < 256,
    ensures
        node_get(apply_record(m, LogRecord::Put(key, value)).primary, key) == Some(value),
        other != key ==> node_get(apply_record(m, LogRecord::Put(key, value)).primary, other)
            == node_get(m.primary, other),
{
    lemma_insert_valid(m.primary, key, value);
    lemma_get_after_insert(m.primary, key, value, other);
}

/// After a delete, reading its key gives nothing and reading another key
/// gives what it gave before.
pub proof fn lemma_get_after_remove(m: DbModel, key: Seq<u8>, other: Seq<u8>)
    requires
        model_valid(m),
    ensures
        node_get(apply_record(m, LogRecord::Delete(key)).primary, key) == None::<Seq<u8>>,
        other != key ==> node_get(apply_record(m, LogRecord::Delete(key)).primary, other)
            == node_get(m.primary, other),
{
    lemma_sorted_distinct(m.primary.keys);
    lemma_get_after_delete(m.primary, key, other);
}

/// Whether the first `n` records can each be applied, in order, starting
/// from `m`.
pub open spec fn applicable_in_order(m: DbModel, rs: Seq<LogRecord>, n: int) -> bool {
    forall|j: int| 0 <= j < n ==> record_applicable(apply_records(m, rs.take(j)), #[trigger] rs[j])
}

/// Applying one more record after a sequence applies it to the result.
pub proof fn lemma_apply_records_push(m: DbModel, rs: Seq<LogRecord>, r: LogRecord)
    ensures
        apply_records(m, rs.push(r)) == apply_record(apply_records(m, rs), r),
    decreases rs.len(),
{
    if rs.len() == 0 {
        assert(rs.push(r).drop_first() =~= Seq::<LogRecord>::empty());
        assert(rs.push(r)[0] == r);
        let m1 = apply_record(m, r);
        assert(apply_records(m1, Seq::<LogRecord>::empty()) == m1);
        assert(apply_records(m, rs.push(r)) == apply_records(m1, rs.push(r).drop_first()));
    } else {
        assert(rs.push(r).drop_first() =~= rs.drop_first().push(r));
        assert(rs.push(r)[0] == rs[0]);
        lemma_apply_records_push(apply_record(m, rs[0]), rs.drop_first(), r);
    }
}

/// Recovery after a crash during an update logged as one record `r`: the
/// log is written before the trees reach the disk, so the disk holds the
/// database before the update or after it. When the log holds the whole
/// record, replaying it gives the database after the update either way.
/// When the record was cut short, reading the log gives no record and an
/// error.
pub proof fn lemma_recover_after_crash(m: DbModel, r: LogRecord, disk: DbModel, k: int)
    requires
        model_valid(m),
        record_applicable(m, r),
        record_keeps_small(m, r),
        record_fits(r),
        disk == m || disk == apply_record(m, r),
    ensures
        parse_log(record_bytes(r), 0).1 == None::<WalError>,
        apply_records(disk, parse_log(record_bytes(r), 0).0) == apply_record(m, r),
        0 < k < record_bytes(r).len() ==> parse_log(record_bytes(r).take(k), 0) == (
            Seq::<LogRecord>::empty(),
            Some(WalError::Truncated),
        ),
{
    let one = seq![r];
    assert(one.drop_first() =~= Seq::<LogRecord>::empty());
    assert(log_bytes(one.drop_first()) =~= Seq::<u8>::empty());
    assert(log_bytes(one) =~= record_bytes(r));
    lemma_decode_written_log(one);
    lemma_apply_records_push(disk, Seq::<LogRecord>::empty(), r);
    assert(Seq::<LogRecord>::empty().push(r) =~= one);
    if disk != m {
        lemma_apply_idempotent(m, r);
    }
    if 0 < k < record_bytes(r).len() {
        let none = Seq::<LogRecord>::empty();
        assert(log_bytes(none) =~= Seq::<u8>::empty());
        lemma_decode_torn_log(none, r, k);
        assert(log_bytes(none) + record_bytes(r).take(k) =~= record_bytes(r).take(k));
    }
}

/// How a tree changes when `key` is removed from it: when the key was
/// there, the root page is rewritten and marked dirty; either way the root
/// becomes the most recently used page.
pub open spec fn removed_from(after: &BTree, before: &BTree, key: Seq<u8>) -> bool {
    if key_index(before.node().keys, key) < before.node().keys.len() {
        &&& after.after_access(
            before,
            Page { id: before.root_id(), data: after.root_page().data, is_dirty: true },
        )
        &&& after.root_page().data@ == page_image(node_delete(before.node(), key))
    } else {
        after.after_access(before, before.root_page())
    }
}

/// A database made of a primary tree, a secondary index and the manager of
/// transaction locks.
pub struct RustDB {
    tree: BTree,
    secondary_index: BTree,
    tx_manager: TransactionManager,
}

impl RustDB {
    /// The primary tree.
    pub closed spec fn primary(&self) -> BTree {
        self.tree
    }

    /// The secondary index.
    pub closed spec fn secondary(&self) -> BTree {
        self.secondary_index
    }

    /// The transaction manager.
    pub closed spec fn manager(&self) -> TransactionManager {
        self.tx_manager
    }

    /// The invariant: both trees keep their root page cached.
    pub open spec fn wf(&self) -> bool {
        self.primary().wf() && self.secondary().wf()
    }

    /// The contents of the database.
    pub open spec fn model(&self) -> DbModel {
        DbModel { primary: self.primary().node(), secondary: self.secondary().node() }
    }

    /// A database over the given trees.
    pub fn new(tree: BTree, secondary_index: BTree) -> (db: Self)
        requires
            tree.wf(),
            secondary_index.wf(),
        ensures
            db.wf(),
            db.primary() == tree,
            db.secondary() == secondary_index,
    {
        Self { tree, secondary_index, tx_manager: TransactionManager::new() }
    }

    /// The primary tree, so that its modified pages can be written to disk.
    pub fn tree(&self) -> (t: &BTree)
        ensures
            *t == self.primary(),
    {
        &self.tree
    }

    /// The secondary index, so that its modified pages can be written to disk.
    pub fn secondary_index(&self) -> (t: &BTree)
        ensures
            *t == self.secondary(),
    {
        &self.secondary_index
    }

    /// The node of the primary tree.
    pub fn primary_node(&self) -> (node: BTreeNode)
        requires
            self.wf(),
        ensures
            node@ == self.model().primary,
    {
        self.tree.root_node()
    }

    /// Whether `put(key, value)` may be called.
    pub fn can_put(&self, key: &[u8], value: &[u8]) -> (b: bool)
        requires
            self.wf(),
        ensures
            b == insertable(self.model().primary, key@, value@),
    {
        self.tree.can_insert(key, value)
    }

    /// Whether `put_with_secondary(key, value, secondary_key)` may be called.
    pub fn can_put_with_secondary(&self, key: &[u8], value: &[u8], secondary_key: &[u8]) -> (b: bool)
        requires
            self.wf(),
        ensures
            b == (insertable(self.model().primary, key@, value@) && insertable(
                self.model().secondary,
                secondary_key@,
                key@,
            )),
    {
        self.tree.can_insert(key, value) && self.secondary_index.can_insert(secondary_key, key)
    }

    /// Whether `apply(entry)` may be called.
    pub fn can_apply(&self, entry: &WALEntry) -> (b: bool)
        requires
            self.wf(),
        ensures
            b == record_applicable(self.model(), entry@),
    {
        match entry {
            WALEntry::Put(k, v) => self.tree.can_insert(k.as_slice(), v.as_slice()),
            WALEntry::IndexPut(i, p) => self.secondary_index.can_insert(i.as_slice(), p.as_slice()),
            _ => true,
        }
    }

    /// Puts `value` under `key` in the primary tree.
    pub fn put(&mut self, key: Vec<u8>, value: Vec<u8>)
        requires
            old(self).wf(),
            insertable(old(self).model().primary, key@, value@),
        ensures
            final(self).wf(),
            final(self).model() == apply_record(old(self).model(), LogRecord::Put(key@, value@)),
            final(self).primary().after_access(
                &old(self).primary(),
                Page {
                    id: old(self).primary().root_id(),
                    data: final(self).primary().root_page().data,
                    is_dirty: true,
                },
            ),
            final(self).secondary() == old(self).secondary(),
            final(self).manager() == old(self).manager(),
    {
        proof {
            reveal(written);
        }
        self.tree.insert(key, value);
    }

    /// Puts `value` under `key` in the primary tree, then points
    /// `secondary_key` to `key` in the secondary index.
    pub fn put_with_secondary(&mut self, key: Vec<u8>, value: Vec<u8>, secondary_key: Vec<u8>)
        requires
            old(self).wf(),
            insertable(old(self).model().primary, key@, value@),
            insertable(old(self).model().secondary, secondary_key@, key@),
        ensures
            final(self).wf(),
            final(self).model() == apply_records(
                old(self).model(),
                seq![LogRecord::Put(key@, value@), LogRecord::IndexPut(secondary_key@, key@)],
            ),
            final(self).primary().after_access(
                &old(self).primary(),
                Page {
                    id: old(self).primary().root_id(),
                    data: final(self).primary().root_page().data,
                    is_dirty: true,
                },
            ),
            final(self).secondary().after_access(
                &old(self).secondary(),
                Page {
                    id: old(self).secondary().root_id(),
                    data: final(self).secondary().root_page().data,
                    is_dirty: true,
                },
            ),
            final(self).manager() == old(self).manager(),
    {
        let ghost k = key@;
        let ghost v = value@;
        let ghost s = secondary_key@;
        proof {
            reveal(written);
        }
        let primary = copy_bytes(key.as_slice());
        self.tree.insert(key, value);
        self.secondary_index.insert(secondary_key, primary);
        proof {
            lemma_apply_two(old(self).model(), LogRecord::Put(k, v), LogRecord::IndexPut(s, k));
        }
    }

    /// The value under `key` in the primary tree.
    pub fn get(&mut self, key: &[u8]) -> (r: Option<Vec<u8>>)
        requires
            old(self).wf(),
        ensures
            final(self).wf(),
            final(self).model() == old(self).model(),
            opt_bytes(r) == node_get(old(self).model().primary, key@),
            final(self).primary().after_access(&old(self).primary(), old(self).primary().root_page()),
            final(self).secondary() == old(self).secondary(),
            final(self).manager() == old(self).manager(),
    {
        self.tree.get(key)
    }

    /// The value under the primary key that `secondary_key` points to.
    pub fn get_by_secondary(&mut self, secondary_key: &[u8]) -> (r: Option<Vec<u8>>)
        requires
            old(self).wf(),
        ensures
            final(self).wf(),
            final(self).model() == old(self).model(),
            opt_bytes(r) == match node_get(old(self).model().secondary, secondary_key@) {
                Some(primary) => node_get(old(self).model().primary, primary),
                None => None,
            },
            final(self).secondary().after_access(&old(self).secondary(), old(self).secondary().root_page()),
            node_get(old(self).model().secondary, secondary_key@) is Some ==> final(self).primary().after_access(
                &old(self).primary(),
                old(self).primary().root_page(),
            ),
            node_get(old(self).model().secondary, secondary_key@) is None ==> final(self).primary()
                == old(self).primary(),
            final(self).manager() == old(self).manager(),
    {
        match self.secondary_index.get(secondary_key) {
            Some(primary) => self.tree.get(primary.as_slice()),
            None => None,
        }
    }

    /// The entries of the primary tree whose key begins with `prefix`, in order.
    pub fn scan(&mut self, prefix: &[u8]) -> (r: Vec<(Vec<u8>, Vec<u8>)>)
        requires
            old(self).wf(),
        ensures
            final(self).wf(),
            final(self).model() == old(self).model(),
            pairs_view(r@) == node_scan(old(self).model().primary, prefix@),
            final(self).primary().after_access(&old(self).primary(), old(self).primary().root_page()),
            final(self).secondary() == old(self).secondary(),
            final(self).manager() == old(self).manager(),
    {
        self.tree.scan_prefix(prefix)
    }

    /// Removes `key` from the primary tree.
    pub fn delete(&mut self, key: &[u8])
        requires
            old(self).wf(),
        ensures
            final(self).wf(),
            final(self).model() == apply_record(old(self).model(), LogRecord::Delete(key@)),
            removed_from(&final(self).primary(), &old(self).primary(), key@),
            final(self).secondary() == old(self).secondary(),
            final(self).manager() == old(self).manager(),
    {
        self.tree.delete(key);
    }

    /// Removes `key` from the primary tree and `secondary_key` from the
    /// secondary index.
    pub fn delete_with_secondary(&mut self, key: &[u8], secondary_key: &[u8])
        requires
            old(self).wf(),
        ensures
            final(self).wf(),
            final(self).model() == apply_records(
                old(self).model(),
                seq![LogRecord::Delete(key@), LogRecord::IndexDelete(secondary_key@)],
            ),
            removed_from(&final(self).primary(), &old(self).primary(), key@),
            removed_from(&final(self).secondary(), &old(self).secondary(), secondary_key@),
            final(self).manager() == old(self).manager(),
    {
        self.tree.delete(key);
        self.secondary_index.delete(secondary_key);
        proof {
            lemma_apply_two(old(self).model(), LogRecord::Delete(key@), LogRecord::IndexDelete(secondary_key@));
        }
    }

    /// Applies one record read back from the log.
    pub fn apply(&mut self, entry: WALEntry)
        requires
            old(self).wf(),
            record_applicable(old(self).model(), entry@),
        ensures
            final(self).wf(),
            final(self).model() == apply_record(old(self).model(), entry@),
            (entry@ is Put || entry@ is Delete) ==> final(self).secondary() == old(self).secondary(),
            (entry@ is IndexPut || entry@ is IndexDelete) ==> final(self).primary() == old(self).primary(),
            final(self).manager() == old(self).manager(),
    {
        proof {
            reveal(written);
        }
        match entry {
            WALEntry::Put(key, value) => self.tree.insert(key, value),
            WALEntry::Delete(key) => self.tree.delete(key.as_slice()),
            WALEntry::IndexPut(index_key, primary_key) => self.secondary_index.insert(index_key, primary_key),
            WALEntry::IndexDelete(index_key) => self.secondary_index.delete(index_key.as_slice()),
        }
    }

    /// Applies the entries read back from the log, in order. Stops at the
    /// first entry that cannot be applied and gives its position; the
    /// entries before it stay applied.
    pub fn replay(&mut self, entries: Vec<WALEntry>) -> (r: Result<(), usize>)
        requires
            old(self).wf(),
        ensures
            final(self).wf(),
            final(self).manager() == old(self).manager(),
            r is Ok ==> final(self).model() == apply_records(old(self).model(), records(entries@)),
            r matches Err(i) ==> i < entries@.len() && final(self).model() == apply_records(
                old(self).model(),
                records(entries@).take(i as int),
            ) && !record_applicable(final(self).model(), entries@[i as int]@),
    {
        let ghost all = records(entries@);
        let n = entries.len();
        let mut rest = entries;
        let mut i: usize = 0;
        assert(all.take(0) =~= Seq::<LogRecord>::empty());
        while rest.len() > 0
            invariant
                self.wf(),
                self.manager() == old(self).manager(),
                i <= all.len(),
                all.len() == n,
                all == records(entries@),
                rest@ == entries@.skip(i as int),
                self.model() == apply_records(old(self).model(), all.take(i as int)),
            decreases rest@.len(),
        {
            let entry = rest.remove(0);
            assert(entry == entries@[i as int]);
            if !self.can_apply(&entry) {
                return Err(i);
            }
            let ghost before = self.model();
            self.apply(entry);
            proof {
                assert(all.take(i + 1) =~= all.take(i as int).push(all[i as int]));
                lemma_apply_records_push(old(self).model(), all.take(i as int), all[i as int]);
            }
            i = i + 1;
            assert(rest@ =~= entries@.skip(i as int));
        }
        assert(all.take(i as int) =~= all);
        Ok(())
    }

    /// Records that a cached page of the primary tree was written to disk.
    pub fn mark_primary_clean(&mut self, page_id: PageId)
        requires
            old(self).wf(),
            old(self).primary().pool()@.contains_key(page_id),
        ensures
            final(self).wf(),
            final(self).model() == old(self).model(),
            final(self).primary().cleaned(&old(self).primary(), page_id),
            final(self).secondary() == old(self).secondary(),
            final(self).manager() == old(self).manager(),
    {
        self.tree.mark_clean(page_id);
    }

    /// Records that a cached page of the secondary index was written to disk.
    pub fn mark_secondary_clean(&mut self, page_id: PageId)
        requires
            old(self).wf(),
            old(self).secondary().pool()@.contains_key(page_id),
        ensures
            final(self).wf(),
            final(self).model() == old(self).model(),
            final(self).secondary().cleaned(&old(self).secondary(), page_id),
            final(self).primary() == old(self).primary(),
            final(self).manager() == old(self).manager(),
    {
        self.secondary_index.mark_clean(page_id);
    }

    /// Starts a transaction that takes the manager's lock when it commits.
    pub fn begin_transaction(&self) -> (tx: Transaction)
        ensures
            tx.operations() == Seq::<LogRecord>::empty(),
            tx.is_active(),
            tx.lock_spec() == self.manager().lock_spec(),
    {
        let lock = self.tx_manager.get_lock();
        Transaction::new(lock)
    }
}

} // verus!
