//! Transactions: writes are kept pending until the transaction commits, and
//! reads inside the transaction see them first.
use vstd::prelude::*;
use std::sync::{Arc, Mutex};
use crate::btree::tree::opt_bytes;
use crate::btree::keys::{bytes_equal, copy_bytes};
use crate::db::{
    applicable_in_order, apply_records, lemma_apply_records_push, record_applicable, written, RustDB,
};
use crate::btree::leaf::{equals, lemma_first_match};
use crate::btree::node::{lemma_decoded_node, BTreeNode, NodeType};
use crate::btree::tree::{insert_entry, remove_entry};
use crate::wal::log::{encode_delete, encode_put, lemma_log_bytes_concat, log_bytes, record_bytes, LogRecord};
use crate::btree::leaf::node_get;

verus! {

#[verifier::external_type_specification]
#[verifier::external_body]
#[verifier::reject_recursive_types(T)]
pub struct ExMutex<T: ?Sized>(Mutex<T>);

/// Calls `std::sync::Mutex::new`; nothing is stated of the lock it makes.
#[verifier::external_body]
fn new_mutex() -> Mutex<()> {
    Mutex::new(())
}

/// Calls `Arc::clone`, which makes another handle to the same shared
/// value; a handle is equal to the one it was cloned from.
#[verifier::external_body]
fn share_lock(lock: &Arc<Mutex<()>>) -> (r: Arc<Mutex<()>>)
    ensures
        r == *lock,
{
    Arc::clone(lock)
}

/// Hands out the lock that committing transactions take.
#[derive(Clone)]
pub struct TransactionManager {
    lock: Arc<Mutex<()>>,
}

impl TransactionManager {
    /// The lock that the manager hands out.
    pub closed spec fn lock_spec(&self) -> Arc<Mutex<()>> {
        self.lock
    }

    /// A manager with a fresh lock.
    pub fn new() -> (m: Self) {
        Self { lock: Arc::new(new_mutex()) }
    }

    /// Another handle to the manager's lock.
    pub fn get_lock(&self) -> (lock: Arc<Mutex<()>>)
        ensures
            lock == self.lock_spec(),
    {
        share_lock(&self.lock)
    }
}

/// A write kept pending in a transaction.
pub enum Operation {
    Put(Vec<u8>, Vec<u8>),
    Delete(Vec<u8>),
}

impl View for Operation {
    type V = LogRecord;

    open spec fn view(&self) -> LogRecord {
        match self {
            Operation::Put(k, v) => LogRecord::Put(k@, v@),
            Operation::Delete(k) => LogRecord::Delete(k@),
        }
    }
}

/// The records of a sequence of operations.
pub open spec fn operation_records(ops: Seq<Operation>) -> Seq<LogRecord> {
    ops.map_values(|op: Operation| op@)
}

/// What the pending writes say of `key`: `Some(Some(v))` when the last
/// write of `key` put `v`, `Some(None)` when it removed `key`, and `None`
/// when no pending write concerns `key`.
pub open spec fn pending_lookup(ops: Seq<LogRecord>, key: Seq<u8>) -> Option<Option<Seq<u8>>>
    decreases ops.len(),
{
    if ops.len() == 0 {
        None
    } else {
        match ops.last() {
            LogRecord::Put(k, v) if k == key => Some(Some(v)),
            LogRecord::Delete(k) if k == key => Some(None),
            _ => pending_lookup(ops.drop_last(), key),
        }
    }
}

/// The last pending write of a key decides what a read of it gives: after a
/// put of the key, its value; after a delete of the key, nothing; a write of
/// another key changes nothing; with no pending write, the stored value is
/// read.
pub proof fn lemma_pending_lookup_last_write(ops: Seq<LogRecord>, key: Seq<u8>, other: Seq<u8>, value: Seq<u8>)
    ensures
        pending_lookup(Seq::<LogRecord>::empty(), key) == None::<Option<Seq<u8>>>,
        pending_lookup(ops.push(LogRecord::Put(key, value)), key) == Some(Some(value)),
        pending_lookup(ops.push(LogRecord::Delete(key)), key) == Some(None::<Seq<u8>>),
        other != key ==> pending_lookup(ops.push(LogRecord::Put(other, value)), key) == pending_lookup(ops, key),
        other != key ==> pending_lookup(ops.push(LogRecord::Delete(other)), key) == pending_lookup(ops, key),
{
    assert(ops.push(LogRecord::Put(key, value)).drop_last() =~= ops);
    assert(ops.push(LogRecord::Delete(key)).drop_last() =~= ops);
    assert(ops.push(LogRecord::Put(other, value)).drop_last() =~= ops);
    assert(ops.push(LogRecord::Delete(other)).drop_last() =~= ops);
}

/// A transaction: the writes it has made, not yet applied.
pub struct Transaction {
    lock: Arc<Mutex<()>>,
    pending: Vec<Operation>,
    active: bool,
}

impl Transaction {
    /// The pending writes, oldest first.
    pub closed spec fn operations(&self) -> Seq<LogRecord> {
        operation_records(self.pending@)
    }

    /// Whether the transaction is still open.
    pub closed spec fn is_active(&self) -> bool {
        self.active
    }

    /// The lock that the transaction takes when it commits.
    pub closed spec fn lock_spec(&self) -> Arc<Mutex<()>> {
        self.lock
    }

    /// The lock to take while committing.
    pub fn lock(&self) -> (lock: &Arc<Mutex<()>>)
        ensures
            *lock == self.lock_spec(),
    {
        &self.lock
    }

    /// An open transaction with no pending writes.
    pub fn new(lock: Arc<Mutex<()>>) -> (tx: Self)
        ensures
            tx.operations() == Seq::<LogRecord>::empty(),
            tx.is_active(),
            tx.lock_spec() == lock,
    {
        let tx = Self { lock, pending: Vec::new(), active: true };
        assert(tx.operations() =~= Seq::<LogRecord>::empty());
        tx
    }

    /// Records putting `value` under `key`.
    pub fn put(&mut self, key: Vec<u8>, value: Vec<u8>)
        ensures
            final(self).operations() == old(self).operations().push(LogRecord::Put(key@, value@)),
            final(self).is_active() == old(self).is_active(),
            final(self).lock_spec() == old(self).lock_spec(),
    {
        let ghost r = LogRecord::Put(key@, value@);
        self.pending.push(Operation::Put(key, value));
        assert(self.operations() =~= old(self).operations().push(r));
    }

    /// Records removing `key`.
    pub fn delete(&mut self, key: &[u8])
        ensures
            final(self).operations() == old(self).operations().push(LogRecord::Delete(key@)),
            final(self).is_active() == old(self).is_active(),
            final(self).lock_spec() == old(self).lock_spec(),
    {
        self.pending.push(Operation::Delete(copy_bytes(key)));
        assert(self.operations() =~= old(self).operations().push(LogRecord::Delete(key@)));
    }

    /// What the pending writes say of `key` (see `pending_lookup`).
    pub fn pending_value(&self, key: &[u8]) -> (r: Option<Option<Vec<u8>>>)
        ensures
            match r {
                Some(v) => pending_lookup(self.operations(), key@) == Some(opt_bytes(v)),
                None => pending_lookup(self.operations(), key@) == None::<Option<Seq<u8>>>,
            },
    {
        let ghost ops = self.operations();
        let mut i: usize = self.pending.len();
        assert(ops.take(i as int) =~= ops);
        while i > 0
            invariant
                ops == operation_records(self.pending@),
                i <= self.pending@.len(),
                pending_lookup(ops, key@) == pending_lookup(ops.take(i as int), key@),
            decreases i,
        {
            let ghost prefix = ops.take(i as int);
            assert(prefix.last() == self.pending@[i - 1]@);
            assert(prefix.drop_last() =~= ops.take(i - 1));
            match &self.pending[i - 1] {
                Operation::Put(k, v) => {
                    if bytes_equal(k.as_slice(), key) {
                        return Some(Some(copy_bytes(v.as_slice())));
                    }
                },
                Operation::Delete(k) => {
                    if bytes_equal(k.as_slice(), key) {
                        return Some(None);
                    }
                },
            }
            i = i - 1;
        }
        None
    }

    /// Reads `key`: the last pending write of `key` when there is one,
    /// otherwise what the database holds.
    pub fn get(&self, db: &mut RustDB, key: &[u8]) -> (r: Option<Vec<u8>>)
        requires
            old(db).wf(),
        ensures
            final(db).wf(),
            final(db).model() == old(db).model(),
            opt_bytes(r) == match pending_lookup(self.operations(), key@) {
                Some(v) => v,
                None => node_get(old(db).model().primary, key@),
            },
    {
        match self.pending_value(key) {
            Some(v) => v,
            None => db.get(key),
        }
    }

    /// Ends the transaction and hands out its pending writes, oldest first.
    pub fn take_operations(&mut self) -> (ops: Vec<Operation>)
        ensures
            operation_records(ops@) == old(self).operations(),
            final(self).operations() == Seq::<LogRecord>::empty(),
            !final(self).is_active(),
            final(self).lock_spec() == old(self).lock_spec(),
    {
        let mut ops: Vec<Operation> = Vec::new();
        std::mem::swap(&mut ops, &mut self.pending);
        self.active = false;
        assert(self.operations() =~= Seq::<LogRecord>::empty());
        ops
    }

    /// The log bytes of the pending writes, oldest first: what is written to
    /// the log before the writes are applied.
    pub fn encode_pending(&self) -> (out: Vec<u8>)
        ensures
            out@ == log_bytes(self.operations()),
    {
        let ghost ops = self.operations();
        let mut out: Vec<u8> = Vec::new();
        let mut i: usize = 0;
        assert(ops.take(0) =~= Seq::<LogRecord>::empty());
        while i < self.pending.len()
            invariant
                ops == operation_records(self.pending@),
                i <= self.pending@.len(),
                out@ == log_bytes(ops.take(i as int)),
            decreases self.pending@.len() - i,
        {
            let mut record = match &self.pending[i] {
                Operation::Put(k, v) => encode_put(k.as_slice(), v.as_slice()),
                Operation::Delete(k) => encode_delete(k.as_slice()),
            };
            assert(record@ == record_bytes(ops[i as int]));
            proof {
                let one = seq![ops[i as int]];
                assert(ops.take(i + 1) =~= ops.take(i as int) + one);
                lemma_log_bytes_concat(ops.take(i as int), one);
                assert(one.drop_first() =~= Seq::<LogRecord>::empty());
                assert(log_bytes(one.drop_first()) =~= Seq::<u8>::empty());
                assert(log_bytes(one) =~= record_bytes(ops[i as int]));
            }
            out.append(&mut record);
            i = i + 1;
        }
        assert(ops.take(i as int) =~= ops);
        out
    }

    /// Checks that the pending writes can be applied to the database in
    /// order, on a copy of the primary tree's node. Gives the position of the
    /// first write that cannot be applied (a put into a node that is not a
    /// leaf, or after which the leaf no longer fits in a page).
    pub fn check_pending(&self, db: &RustDB) -> (r: Result<(), usize>)
        requires
            db.wf(),
        ensures
            r is Ok ==> applicable_in_order(db.model(), self.operations(), self.operations().len() as int),
            r matches Err(i) ==> i < self.operations().len() && applicable_in_order(
                db.model(),
                self.operations(),
                i as int,
            ) && !record_applicable(
                apply_records(db.model(), self.operations().take(i as int)),
                self.operations()[i as int],
            ),
    {
        let ghost m = db.model();
        let ghost ops = self.operations();
        let mut node = db.primary_node();
        proof {
            lemma_decoded_node(db.primary().root_page().data@);
            assert(ops.take(0) =~= Seq::<LogRecord>::empty());
        }
        let mut i: usize = 0;
        while i < self.pending.len()
            invariant
                db.wf(),
                m == db.model(),
                ops == operation_records(self.pending@),
                i <= self.pending@.len(),
                node@ == apply_records(m, ops.take(i as int)).primary,
                node@.keys.len() == node@.values.len(),
                applicable_in_order(m, ops, i as int),
            decreases self.pending@.len() - i,
        {
            let ghost before = node@;
            let ghost state = apply_records(m, ops.take(i as int));
            assert(ops[i as int] == self.pending@[i as int]@);
            match &self.pending[i] {
                Operation::Put(k, v) => {
                    if node.node_type != NodeType::Leaf {
                        return Err(i);
                    }
                    insert_entry(&mut node, copy_bytes(k.as_slice()), copy_bytes(v.as_slice()));
                    if !node.fits_in_page() {
                        return Err(i);
                    }
                    let page = node.to_page(0);
                    node = BTreeNode::from_page(&page);
                    proof {
                        reveal(written);
                        lemma_decoded_node(page.data@);
                    }
                },
                Operation::Delete(k) => {
                    remove_entry(&mut node, k.as_slice());
                    proof {
                        lemma_first_match(before.keys, equals(k@));
                    }
                },
            }
            proof {
                assert(ops.take(i + 1) =~= ops.take(i as int).push(ops[i as int]));
                lemma_apply_records_push(m, ops.take(i as int), ops[i as int]);
                assert forall|j: int| 0 <= j < i + 1 implies record_applicable(
                    apply_records(m, ops.take(j)),
                    #[trigger] ops[j],
                ) by {
                    if j < i {
                        assert(record_applicable(apply_records(m, ops.take(j)), ops[j]));
                    }
                }
            }
            i = i + 1;
        }
        assert(ops.take(i as int) =~= ops);
        Ok(())
    }

    /// Commits the pending writes, all or none. When one of them cannot be
    /// applied (see `check_pending`), nothing changes and its position is
    /// given; otherwise the transaction ends and the writes are applied to
    /// the database in order.
    pub fn apply_pending(&mut self, db: &mut RustDB) -> (r: Result<(), usize>)
        requires
            old(db).wf(),
        ensures
            final(db).wf(),
            r is Ok ==> {
                &&& final(db).model() == apply_records(old(db).model(), old(self).operations())
                &&& final(db).manager() == old(db).manager()
                &&& final(self).operations() == Seq::<LogRecord>::empty()
                &&& !final(self).is_active()
                &&& final(self).lock_spec() == old(self).lock_spec()
            },
            r matches Err(i) ==> {
                &&& i < old(self).operations().len()
                &&& applicable_in_order(old(db).model(), old(self).operations(), i as int)
                &&& !record_applicable(
                    apply_records(old(db).model(), old(self).operations().take(i as int)),
                    old(self).operations()[i as int],
                )
                &&& *final(db) == *old(db)
                &&& *final(self) == *old(self)
            },
    {
        match self.check_pending(db) {
            Err(i) => {
                return Err(i);
            },
            Ok(()) => {},
        }
        let ghost m = db.model();
        let ops = self.take_operations();
        let ghost all = operation_records(ops@);
        let n = ops.len();
        let mut rest = ops;
        let mut i: usize = 0;
        assert(all.take(0) =~= Seq::<LogRecord>::empty());
        while rest.len() > 0
            invariant
                db.wf(),
                db.manager() == old(db).manager(),
                m == old(db).model(),
                self.operations() == Seq::<LogRecord>::empty(),
                !self.is_active(),
                self.lock_spec() == old(self).lock_spec(),
                i <= all.len(),
                all.len() == n,
                all == old(self).operations(),
                applicable_in_order(m, all, n as int),
                rest@ == ops@.skip(i as int),
                all == operation_records(ops@),
                db.model() == apply_records(m, all.take(i as int)),
            decreases rest@.len(),
        {
            let op = rest.remove(0);
            assert(op == ops@[i as int]);
            assert(all[i as int] == op@);
            assert(record_applicable(apply_records(m, all.take(i as int)), all[i as int]));
            match op {
                Operation::Put(key, value) => {
                    db.put(key, value);
                },
                Operation::Delete(key) => {
                    db.delete(key.as_slice());
                },
            }
            proof {
                assert(all.take(i + 1) =~= all.take(i as int).push(all[i as int]));
                lemma_apply_records_push(m, all.take(i as int), all[i as int]);
            }
            i = i + 1;
            assert(rest@ =~= ops@.skip(i as int));
        }
        assert(all.take(i as int) =~= all);
        Ok(())
    }

    /// Ends the transaction without applying its pending writes.
    pub fn rollback(&mut self)
        ensures
            final(self).operations() == Seq::<LogRecord>::empty(),
            !final(self).is_active(),
            final(self).lock_spec() == old(self).lock_spec(),
    {
        self.pending.clear();
        self.active = false;
        assert(self.operations() =~= Seq::<LogRecord>::empty());
    }
}

} // verus!
