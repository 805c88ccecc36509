//! Finds out which earlier transactions a transaction depends on, from the logs
//! of what they did.
use crate::collections::{KeyMap, KeySet};
use crate::parallel::operation_logs::{Operation, OperationLog};
use crate::primitives::{Address, StorageKey, U256};
use std::collections::HashMap;
use vstd::prelude::*;

verus! {

/// A way in which a transaction depends on an earlier one.
#[derive(Debug)]
pub enum ConflictType {
    /// A transaction read or wrote slots of these accounts that an earlier one
    /// wrote.
    TransactionLevel {
        tx1_index: usize,
        tx2_index: usize,
        conflicting_addresses: KeySet<Address>,
    },
    /// A transaction read a slot that this operation of an earlier one wrote.
    OperationLevel { tx_index: usize, op_index: usize, address: Address, slot: Option<U256> },
}

/// A conflict with its accounts as a set.
pub enum ConflictView {
    TransactionLevel { tx1_index: usize, tx2_index: usize, addresses: Set<Address> },
    OperationLevel { tx_index: usize, op_index: usize, address: Address, slot: Option<U256> },
}

impl View for ConflictType {
    type V = ConflictView;

    open spec fn view(&self) -> ConflictView {
        match *self {
            ConflictType::TransactionLevel { tx1_index, tx2_index, conflicting_addresses } => {
                ConflictView::TransactionLevel {
                    tx1_index,
                    tx2_index,
                    addresses: conflicting_addresses@,
                }
            },
            ConflictType::OperationLevel { tx_index, op_index, address, slot } => {
                ConflictView::OperationLevel { tx_index, op_index, address, slot }
            },
        }
    }
}

impl ConflictType {
    pub open spec fn wf(self) -> bool {
        self matches ConflictType::TransactionLevel { conflicting_addresses, .. }
            ==> conflicting_addresses.wf()
    }
}

impl Clone for ConflictType {
    fn clone(&self) -> (r: Self)
        ensures
            r@ == self@,
            r.wf() == self.wf(),
    {
        match self {
            ConflictType::TransactionLevel { tx1_index, tx2_index, conflicting_addresses } => {
                ConflictType::TransactionLevel {
                    tx1_index: *tx1_index,
                    tx2_index: *tx2_index,
                    conflicting_addresses: conflicting_addresses.clone(),
                }
            },
            ConflictType::OperationLevel { tx_index, op_index, address, slot } => {
                ConflictType::OperationLevel {
                    tx_index: *tx_index,
                    op_index: *op_index,
                    address: *address,
                    slot: *slot,
                }
            },
        }
    }
}

/// Conflicts with their accounts as sets.
pub open spec fn conflict_views(conflicts: Seq<ConflictType>) -> Seq<ConflictView> {
    Seq::new(conflicts.len(), |i: int| conflicts[i]@)
}

pub open spec fn all_wf(conflicts: Seq<ConflictType>) -> bool {
    forall|i: int| 0 <= i < conflicts.len() ==> (#[trigger] conflicts[i]).wf()
}

/// The same conflicts again.
pub fn clone_conflicts(conflicts: &Vec<ConflictType>) -> (r: Vec<ConflictType>)
    ensures
        conflict_views(r@) == conflict_views(conflicts@),
        all_wf(conflicts@) ==> all_wf(r@),
{
    let mut r: Vec<ConflictType> = Vec::new();
    for i in 0..conflicts.len()
        invariant
            r@.len() == i,
            forall|j: int|
                0 <= j < i ==> (#[trigger] r@[j])@ == conflicts@[j]@ && r@[j].wf()
                    == conflicts@[j].wf(),
    {
        r.push(conflicts[i].clone());
    }
    assert(conflict_views(r@) =~= conflict_views(conflicts@));
    r
}

/// The slot under which an operation is filed, and whether it wrote it. An access
/// to a whole account is filed as a read of the account's slot zero.
pub open spec fn filed(op: Operation) -> (StorageKey, bool) {
    match op {
        Operation::Read { address, slot } => ((address, slot), false),
        Operation::Write { address, slot, .. } => ((address, slot), true),
        Operation::AccountAccess { address } => ((address, crate::primitives::zero_word()), false),
        Operation::CodeAccess { address } => ((address, crate::primitives::zero_word()), false),
    }
}

/// Whether some operation is filed under a slot, as a write or as a read.
pub open spec fn files(ops: Seq<Operation>, key: StorageKey, write: bool) -> bool {
    exists|i: int| 0 <= i < ops.len() && filed(#[trigger] ops[i]) == (key, write)
}

/// The slots that some operations read.
pub open spec fn reads_of(ops: Seq<Operation>) -> Set<StorageKey> {
    Set::new(|key: StorageKey| files(ops, key, false))
}

/// The slots that some operations wrote.
pub open spec fn writes_of(ops: Seq<Operation>) -> Set<StorageKey> {
    Set::new(|key: StorageKey| files(ops, key, true))
}

/// The accesses to one slot among the operations of a transaction, in their
/// order: the transaction, the position of the operation, and whether it wrote.
pub open spec fn entries_of(
    tx_idx: usize,
    ops: Seq<Operation>,
    key: StorageKey,
) -> Seq<(usize, usize, bool)>
    decreases ops.len(),
{
    if ops.len() == 0 {
        Seq::empty()
    } else {
        let earlier = entries_of(tx_idx, ops.drop_last(), key);
        if filed(ops.last()).0 == key {
            earlier.push((tx_idx, (ops.len() - 1) as usize, filed(ops.last()).1))
        } else {
            earlier
        }
    }
}

/// What is known of the accesses to a slot.
pub open spec fn known(
    history: Map<StorageKey, Seq<(usize, usize, bool)>>,
    key: StorageKey,
) -> Seq<(usize, usize, bool)> {
    if history.contains_key(key) {
        history[key]
    } else {
        Seq::empty()
    }
}

/// The history with the operations of one more transaction at its end.
pub open spec fn history_with(
    history: Map<StorageKey, Seq<(usize, usize, bool)>>,
    tx_idx: usize,
    ops: Seq<Operation>,
) -> Map<StorageKey, Seq<(usize, usize, bool)>> {
    Map::new(
        |key: StorageKey|
            history.contains_key(key) || reads_of(ops).contains(key) || writes_of(ops).contains(
                key,
            ),
        |key: StorageKey| known(history, key) + entries_of(tx_idx, ops, key),
    )
}

/// The last write in a history by a transaction before `tx_idx`.
pub open spec fn last_write(history: Seq<(usize, usize, bool)>, tx_idx: usize) -> Option<
    (usize, usize),
>
    decreases history.len(),
{
    if history.len() == 0 {
        None
    } else if history.last().2 && history.last().0 < tx_idx {
        Some((history.last().0, history.last().1))
    } else {
        last_write(history.drop_last(), tx_idx)
    }
}

/// Whether some slot of an account is in both sets.
pub open spec fn shares(
    mine: Set<StorageKey>,
    others: Set<StorageKey>,
    address: Address,
) -> bool {
    exists|slot: U256| #[trigger] mine.contains((address, slot)) && others.contains((address, slot))
}

/// The accounts of the slots that are among the reads or the writes of one
/// transaction and among the writes of another.
pub open spec fn shared_addresses(
    reads: Set<StorageKey>,
    writes: Set<StorageKey>,
    others: Set<StorageKey>,
) -> Set<Address> {
    Set::new(|address: Address| shares(reads, others, address) || shares(writes, others, address))
}

/// The detector as maps.
#[verifier::ext_equal]
pub struct DetectorView {
    pub reads: Map<usize, Set<StorageKey>>,
    pub writes: Map<usize, Set<StorageKey>>,
    pub history: Map<StorageKey, Seq<(usize, usize, bool)>>,
    pub cache: Map<(usize, usize), Seq<ConflictView>>,
}

/// A detector that knows nothing yet.
pub open spec fn no_accesses() -> DetectorView {
    DetectorView {
        reads: Map::empty(),
        writes: Map::empty(),
        history: Map::empty(),
        cache: Map::empty(),
    }
}

impl DetectorView {
    /// An earlier transaction wrote slots that `tx_idx` read or wrote.
    pub open spec fn is_transaction_conflict(self, tx_idx: usize, c: ConflictView) -> bool {
        &&& self.reads.contains_key(tx_idx)
        &&& self.writes.contains_key(tx_idx)
        &&& c matches ConflictView::TransactionLevel { tx1_index, tx2_index, addresses }
        &&& tx1_index == tx_idx
        &&& tx2_index < tx_idx
        &&& self.writes.contains_key(tx2_index)
        &&& addresses == shared_addresses(
            self.reads[tx_idx],
            self.writes[tx_idx],
            self.writes[tx2_index],
        )
        &&& addresses != Set::<Address>::empty()
    }

    /// A slot that `tx_idx` read was last written, before it, by this operation.
    pub open spec fn is_operation_conflict(self, tx_idx: usize, c: ConflictView) -> bool {
        &&& self.reads.contains_key(tx_idx)
        &&& c matches ConflictView::OperationLevel { tx_index, op_index, address, slot }
        &&& slot matches Some(s)
        &&& self.reads[tx_idx].contains((address, s))
        &&& last_write(known(self.history, (address, s)), tx_idx) == Some((tx_index, op_index))
    }

    /// These are the conflicts of a transaction, each once, those with whole
    /// transactions before those with single operations.
    pub open spec fn detected(self, tx_idx: usize, conflicts: Seq<ConflictView>) -> bool {
        &&& conflicts.no_duplicates()
        &&& forall|c: ConflictView|
            #![trigger conflicts.contains(c)]
            conflicts.contains(c) <==> self.is_transaction_conflict(tx_idx, c)
                || self.is_operation_conflict(tx_idx, c)
        &&& forall|i: int, j: int|
            0 <= i < j < conflicts.len() && (#[trigger] conflicts[j]) is TransactionLevel ==> (
            #[trigger] conflicts[i]) is TransactionLevel
    }

    /// Whether these are the conflicts that the detector tells of a transaction, and
    /// what it has become by that: it keeps its first answer.
    pub open spec fn answers(
        self,
        tx_idx: usize,
        conflicts: Seq<ConflictView>,
        after: DetectorView,
    ) -> bool {
        if self.cache.contains_key((tx_idx, 0)) {
            conflicts == self.cache[(tx_idx, 0)] && after == self
        } else {
            self.detected(tx_idx, conflicts) && after == (DetectorView {
                cache: self.cache.insert((tx_idx, 0), conflicts),
                ..self
            })
        }
    }

    /// The detector with one more log analyzed.
    pub open spec fn analyzed(self, tx_idx: usize, ops: Seq<Operation>) -> DetectorView {
        DetectorView {
            reads: self.reads.insert(tx_idx, reads_of(ops)),
            writes: self.writes.insert(tx_idx, writes_of(ops)),
            history: history_with(self.history, tx_idx, ops),
            cache: self.cache,
        }
    }
}

/// What is known of the accesses of all transactions, and the conflicts that were
/// asked for already.
#[derive(Debug)]
pub struct ConflictDetector {
    tx_read_sets: HashMap<usize, KeySet<StorageKey>>,
    tx_write_sets: KeyMap<usize, KeySet<StorageKey>>,
    operation_history: KeyMap<StorageKey, Vec<(usize, usize, bool)>>,
    conflict_cache: KeyMap<(usize, usize), Vec<ConflictType>>,
}

impl View for ConflictDetector {
    type V = DetectorView;

    closed spec fn view(&self) -> DetectorView {
        DetectorView {
            reads: self.tx_read_sets@.map_values(|s: KeySet<StorageKey>| s@),
            writes: self.tx_write_sets@.map_values(|s: KeySet<StorageKey>| s@),
            history: self.operation_history@.map_values(|v: Vec<(usize, usize, bool)>| v@),
            cache: self.conflict_cache@.map_values(
                |v: Vec<ConflictType>| conflict_views(v@),
            ),
        }
    }
}

proof fn lemma_filed_push(ops: Seq<Operation>, op: Operation)
    ensures
        reads_of(ops.push(op)) == if filed(op).1 {
            reads_of(ops)
        } else {
            reads_of(ops).insert(filed(op).0)
        },
        writes_of(ops.push(op)) == if filed(op).1 {
            writes_of(ops).insert(filed(op).0)
        } else {
            writes_of(ops)
        },
        forall|tx: usize, key: StorageKey|
            ops.len() <= usize::MAX ==> #[trigger] entries_of(tx, ops.push(op), key) == if filed(
                op,
            ).0 == key {
                entries_of(tx, ops, key).push((tx, ops.len() as usize, filed(op).1))
            } else {
                entries_of(tx, ops, key)
            },
{
    let after = ops.push(op);
    let n = ops.len() as int;
    assert(after.drop_last() =~= ops);
    assert forall|key: StorageKey, w: bool| #[trigger]
        files(after, key, w) == (files(ops, key, w) || filed(op) == (key, w)) by {
        if files(ops, key, w) {
            let i = choose|i: int| 0 <= i < ops.len() && filed(#[trigger] ops[i]) == (key, w);
            assert(filed(after[i]) == (key, w));
        }
        if filed(op) == (key, w) {
            assert(filed(after[n]) == (key, w));
        }
        if files(after, key, w) {
            let i = choose|i: int| 0 <= i < after.len() && filed(#[trigger] after[i]) == (key, w);
            if i < n {
                assert(filed(ops[i]) == (key, w));
            }
        }
    }
    let rhs = if filed(op).1 {
        reads_of(ops)
    } else {
        reads_of(ops).insert(filed(op).0)
    };
    assert(reads_of(after) =~= rhs);
    let rhs = if filed(op).1 {
        writes_of(ops).insert(filed(op).0)
    } else {
        writes_of(ops)
    };
    assert(writes_of(after) =~= rhs);
}

impl ConflictDetector {
    pub closed spec fn wf(self) -> bool {
        &&& self.tx_write_sets.wf()
        &&& self.operation_history.wf()
        &&& self.conflict_cache.wf()
        &&& forall|tx: usize| #[trigger]
            self.tx_read_sets@.contains_key(tx) ==> self.tx_read_sets@[tx].wf()
        &&& forall|tx: usize| #[trigger]
            self.tx_write_sets@.contains_key(tx) ==> self.tx_write_sets@[tx].wf()
        &&& forall|k: (usize, usize)| #[trigger]
            self.conflict_cache@.contains_key(k) ==> all_wf(self.conflict_cache@[k]@)
    }

    pub fn new() -> (r: Self)
        ensures
            r.wf(),
            r@ == no_accesses(),
    {
        let r = ConflictDetector {
            tx_read_sets: HashMap::new(),
            tx_write_sets: KeyMap::new(),
            operation_history: KeyMap::new(),
            conflict_cache: KeyMap::new(),
        };
        assert(r@ =~= no_accesses());
        r
    }

    /// Takes in the log of a transaction. What was known of its reads and writes is
    /// replaced; its operations go to the end of the history. Conflicts that were
    /// asked for before stay as they were answered: see `clear_cache`.
    pub fn analyze_operation_log<'a, BLOCK, TX>(&mut self, log: &OperationLog<'a, BLOCK, TX>)
        requires
            old(self).wf(),
        ensures
            final(self).wf(),
            final(self)@ == old(self)@.analyzed(log@.tx_index, log@.operations),
    {
        let tx_idx = log.tx_index();
        let mut read_set: KeySet<StorageKey> = KeySet::new();
        let mut write_set: KeySet<StorageKey> = KeySet::new();
        let ops = log.operations();
        let ghost all = ops@;
        proof {
            assert(all.take(0) =~= Seq::<Operation>::empty());
            assert(reads_of(all.take(0)) =~= Set::empty());
            assert(writes_of(all.take(0)) =~= Set::empty());
            assert(history_with(self@.history, tx_idx, all.take(0)) =~= self@.history);
        }
        for op_idx in 0..ops.len()
            invariant
                self.wf(),
                all == ops@,
                read_set.wf(),
                write_set.wf(),
                read_set@ == reads_of(all.take(op_idx as int)),
                write_set@ == writes_of(all.take(op_idx as int)),
                self@ == (DetectorView {
                    history: history_with(old(self)@.history, tx_idx, all.take(op_idx as int)),
                    ..old(self)@
                }),
        {
            let op = ops[op_idx];
            let ghost seen = all.take(op_idx as int);
            let ghost before = self@.history;
            proof {
                assert(all.take(op_idx + 1) =~= seen.push(op));
                lemma_filed_push(seen, op);
            }
            match op {
                Operation::Read { address, slot } => {
                    read_set.insert((address, slot));
                    self.record_operation(address, slot, tx_idx, op_idx, false);
                },
                Operation::Write { address, slot, value: _, original_value: _ } => {
                    write_set.insert((address, slot));
                    self.record_operation(address, slot, tx_idx, op_idx, true);
                },
                Operation::AccountAccess { address } => {
                    read_set.insert((address, U256::zero()));
                    self.record_operation(address, U256::zero(), tx_idx, op_idx, false);
                },
                Operation::CodeAccess { address } => {
                    read_set.insert((address, U256::zero()));
                    self.record_operation(address, U256::zero(), tx_idx, op_idx, false);
                },
            }
            proof {
                let want = history_with(old(self)@.history, tx_idx, all.take(op_idx + 1));
                assert(self@.history =~= before.insert(
                    filed(op).0,
                    known(before, filed(op).0).push((tx_idx, op_idx, filed(op).1)),
                ));
                assert forall|key: StorageKey| known(before, key) == known(
                    old(self)@.history,
                    key,
                ) + entries_of(tx_idx, seen, key) by {
                    lemma_no_entries(tx_idx, seen, key);
                    assert(known(before, key) =~= known(old(self)@.history, key) + entries_of(
                        tx_idx,
                        seen,
                        key,
                    ));
                }
                assert forall|key: StorageKey| #[trigger]
                    want.contains_key(key) implies self@.history[key] == want[key] by {
                    assert(entries_of(tx_idx, seen.push(op), key) == if filed(op).0 == key {
                        entries_of(tx_idx, seen, key).push((tx_idx, op_idx, filed(op).1))
                    } else {
                        entries_of(tx_idx, seen, key)
                    });
                    assert(self@.history[key] =~= want[key]);
                }
                assert(self@.history =~= want);
            }
        }
        assert(all.take(all.len() as int) =~= all);
        self.tx_read_sets.insert(tx_idx, read_set);
        self.tx_write_sets.insert(tx_idx, write_set);
        assert(self@ =~= old(self)@.analyzed(tx_idx, all));
    }

    fn record_operation(
        &mut self,
        address: Address,
        slot: U256,
        tx_idx: usize,
        op_idx: usize,
        is_write: bool,
    )
        requires
            old(self).wf(),
        ensures
            final(self).wf(),
            final(self)@ == (DetectorView {
                history: old(self)@.history.insert(
                    (address, slot),
                    known(old(self)@.history, (address, slot)).push((tx_idx, op_idx, is_write)),
                ),
                ..old(self)@
            }),
    {
        let key = (address, slot);
        let mut entries = match self.operation_history.remove(&key) {
            Some(entries) => entries,
            None => Vec::new(),
        };
        assert(entries@ =~= known(old(self)@.history, key));
        entries.push((tx_idx, op_idx, is_write));
        self.operation_history.insert(key, entries);
        assert(self@ =~= DetectorView {
            history: old(self)@.history.insert(
                key,
                known(old(self)@.history, key).push((tx_idx, op_idx, is_write)),
            ),
            ..old(self)@
        });
    }
}

/// Adds the accounts of the slots that are in both sets.
fn add_shared(
    addresses: &mut KeySet<Address>,
    mine: &KeySet<StorageKey>,
    others: &KeySet<StorageKey>,
)
    requires
        old(addresses).wf(),
    ensures
        final(addresses).wf(),
        forall|a: Address|
            final(addresses)@.contains(a) <==> (old(addresses)@.contains(a) || shares(
                mine@,
                others@,
                a,
            )),
{
    let n = mine.len();
    let ghost order = mine.order();
    for i in 0..n
        invariant
            n == order.len(),
            order == mine.order(),
            addresses.wf(),
            forall|a: Address|
                old(addresses)@.contains(a) ==> #[trigger] addresses@.contains(a),
            forall|j: int|
                0 <= j < i && others@.contains(#[trigger] order[j]) ==> addresses@.contains(
                    order[j].0,
                ),
            forall|a: Address| #[trigger]
                addresses@.contains(a) ==> old(addresses)@.contains(a) || shares(
                    mine@,
                    others@,
                    a,
                ),
    {
        let key = mine.at(i);
        if others.contains(&key) {
            assert(mine@.contains((key.0, key.1)));
            assert(shares(mine@, others@, key.0));
            addresses.insert(key.0);
        }
    }
    proof {
        assert forall|a: Address| shares(mine@, others@, a) implies addresses@.contains(a) by {
            let slot = choose|slot: U256| #[trigger]
                mine@.contains((a, slot)) && others@.contains((a, slot));
            let j = order.index_of((a, slot));
            assert(order[j] == (a, slot));
        }
    }
}

/// The accounts of the slots that one transaction read or wrote and another
/// wrote.
fn conflicting_addresses(
    reads: &KeySet<StorageKey>,
    writes: &KeySet<StorageKey>,
    others: &KeySet<StorageKey>,
) -> (r: KeySet<Address>)
    ensures
        r.wf(),
        r@ == shared_addresses(reads@, writes@, others@),
{
    let mut addresses: KeySet<Address> = KeySet::new();
    add_shared(&mut addresses, reads, others);
    add_shared(&mut addresses, writes, others);
    assert(addresses@ =~= shared_addresses(reads@, writes@, others@));
    addresses
}

impl ConflictDetector {
    /// The conflicts of a transaction with earlier ones. Once they were asked for,
    /// the same answer is given until the cache is cleared.
    pub fn detect_conflicts(&mut self, tx_idx: usize) -> (r: Vec<ConflictType>)
        requires
            old(self).wf(),
        ensures
            final(self).wf(),
            all_wf(r@),
            old(self)@.answers(tx_idx, conflict_views(r@), final(self)@),
    {
        if let Some(cached_conflicts) = self.get_cached_conflicts(tx_idx) {
            return cached_conflicts;
        }
        let mut conflicts = self.transaction_conflicts(tx_idx);
        let ghost first = conflicts@;
        let mut single = self.operation_conflicts(tx_idx);
        let ghost second = single@;
        conflicts.append(&mut single);
        proof {
            let all = conflict_views(conflicts@);
            let a = conflict_views(first);
            let b = conflict_views(second);
            assert(all =~= a + b);
            assert forall|c: ConflictView| all.contains(c) == (a.contains(c) || b.contains(c)) by {
                if a.contains(c) {
                    let i = a.index_of(c);
                    assert(all[i] == c);
                }
                if b.contains(c) {
                    let i = b.index_of(c);
                    assert(all[a.len() + i] == c);
                }
                if all.contains(c) {
                    let i = all.index_of(c);
                    if i < a.len() {
                        assert(a[i] == c);
                    } else {
                        assert(b[i - a.len()] == c);
                    }
                }
            }
            assert(forall|i: int| 0 <= i < a.len() ==> a.contains(#[trigger] a[i]));
            assert(forall|i: int| 0 <= i < b.len() ==> b.contains(#[trigger] b[i]));
            assert forall|i: int, j: int|
                0 <= i < all.len() && 0 <= j < all.len() && i != j implies all[i] != all[j] by {
                if i < a.len() && j < a.len() {
                    assert(a[i] != a[j]);
                } else if i >= a.len() && j >= a.len() {
                    assert(b[i - a.len()] != b[j - a.len()]);
                } else if i < a.len() {
                    assert(a.contains(a[i]) && b.contains(b[j - a.len()]));
                } else {
                    assert(a.contains(a[j]) && b.contains(b[i - a.len()]));
                }
            }
            assert forall|i: int, j: int|
                0 <= i < j < all.len() && (#[trigger] all[j]) is TransactionLevel implies (
            #[trigger] all[i]) is TransactionLevel by {
                if j >= a.len() {
                    assert(b.contains(b[j - a.len()]));
                }
                assert(a.contains(a[i]));
            }
            assert forall|i: int| 0 <= i < conflicts@.len() implies (#[trigger] conflicts@[i]).wf() by {
                if i < first.len() {
                    assert(conflicts@[i] == first[i]);
                } else {
                    assert(conflicts@[i] == second[i - first.len()]);
                }
            }
        }
        self.cache_conflicts(tx_idx, &conflicts);
        conflicts
    }

    /// The conflicts with whole transactions.
    fn transaction_conflicts(&self, tx_idx: usize) -> (r: Vec<ConflictType>)
        requires
            self.wf(),
        ensures
            all_wf(r@),
            conflict_views(r@).no_duplicates(),
            forall|c: ConflictView|
                conflict_views(r@).contains(c) <==> self@.is_transaction_conflict(tx_idx, c),
    {
        let mut conflicts: Vec<ConflictType> = Vec::new();
        let current_reads = match self.tx_read_sets.get(&tx_idx) {
            Some(reads) => reads,
            None => {
                assert(!self@.reads.contains_key(tx_idx));
                return conflicts;
            },
        };
        let current_writes = match self.tx_write_sets.get(&tx_idx) {
            Some(writes) => writes,
            None => {
                assert(!self@.writes.contains_key(tx_idx));
                return conflicts;
            },
        };
        proof {
            self.tx_write_sets.lemma_order();
            assert(self@.reads[tx_idx] == current_reads@);
            assert(self@.writes[tx_idx] == current_writes@);
        }
        let ghost order = self.tx_write_sets.order();
        let ghost mut origin: Seq<int> = Seq::empty();
        let n = self.tx_write_sets.len();
        for i in 0..n
            invariant
                self.wf(),
                n == order.len(),
                order == self.tx_write_sets.order(),
                order.no_duplicates(),
                self@.reads.contains_key(tx_idx),
                self@.writes.contains_key(tx_idx),
                self@.reads[tx_idx] == current_reads@,
                self@.writes[tx_idx] == current_writes@,
                all_wf(conflicts@),
                origin.len() == conflicts@.len(),
                forall|j: int|
                    0 <= j < conflicts@.len() ==> 0 <= #[trigger] origin[j] < i
                        && self@.is_transaction_conflict(tx_idx, conflicts@[j]@)
                        && conflicts@[j]@->tx2_index == order[origin[j]],
                forall|a: int, b: int| 0 <= a < b < origin.len() ==> origin[a] < origin[b],
                forall|k: int|
                    0 <= k < i && #[trigger] order[k] < tx_idx && shared_addresses(
                        current_reads@,
                        current_writes@,
                        self@.writes[order[k]],
                    ) != Set::<Address>::empty() ==> exists|j: int|
                        0 <= j < origin.len() && #[trigger] origin[j] == k,
        {
            let other_tx_idx = self.tx_write_sets.key_at(i);
            let other_writes = self.tx_write_sets.value_at(i);
            let ghost was = origin;
            let ghost earlier = conflicts@;
            assert(self@.writes.contains_key(other_tx_idx));
            assert(self@.writes[other_tx_idx] == other_writes@);
            if other_tx_idx < tx_idx {
                let conflicting_addresses = conflicting_addresses(
                    current_reads,
                    current_writes,
                    other_writes,
                );
                if !conflicting_addresses.is_empty() {
                    conflicts.push(
                        ConflictType::TransactionLevel {
                            tx1_index: tx_idx,
                            tx2_index: other_tx_idx,
                            conflicting_addresses,
                        },
                    );
                    proof {
                        origin = origin.push(i as int);
                        assert(origin[was.len() as int] == i);
                    }
                }
            }
            proof {
                assert forall|j: int| 0 <= j < conflicts@.len() implies 0 <= #[trigger] origin[j] < i
                    + 1 && self@.is_transaction_conflict(tx_idx, conflicts@[j]@)
                    && conflicts@[j]@->tx2_index == order[origin[j]] by {
                    if j < was.len() {
                        assert(origin[j] == was[j]);
                        assert(conflicts@[j] == earlier[j]);
                    }
                }
                assert forall|k: int|
                    0 <= k < i + 1 && #[trigger] order[k] < tx_idx && shared_addresses(
                        current_reads@,
                        current_writes@,
                        self@.writes[order[k]],
                    ) != Set::<Address>::empty() implies exists|j: int|
                    0 <= j < origin.len() && #[trigger] origin[j] == k by {
                    if k < i {
                        let j = choose|j: int| 0 <= j < was.len() && #[trigger] was[j] == k;
                        assert(origin[j] == k);
                    }
                }
            }
        }
        proof {
            let views = conflict_views(conflicts@);
            assert forall|c: ConflictView|
                views.contains(c) <==> self@.is_transaction_conflict(tx_idx, c) by {
                if views.contains(c) {
                    let j = views.index_of(c);
                    assert(views[j] == conflicts@[j]@);
                    assert(0 <= origin[j] < n);
                }
                if self@.is_transaction_conflict(tx_idx, c) {
                    let other = c->tx2_index;
                    assert(order.to_set().contains(other));
                    let k = order.index_of(other);
                    assert(order[k] == other);
                    let j = choose|j: int| 0 <= j < origin.len() && #[trigger] origin[j] == k;
                    assert(conflicts@[j]@->tx2_index == other);
                    assert(views[j] == c);
                }
            }
            assert forall|a: int, b: int|
                0 <= a < views.len() && 0 <= b < views.len() && a != b implies views[a]
                != views[b] by {
                assert(origin[a] != origin[b]);
                assert(order[origin[a]] != order[origin[b]]);
                assert(views[a] == conflicts@[a]@ && views[b] == conflicts@[b]@);
            }
        }
        conflicts
    }

    /// The conflicts with single operations.
    fn operation_conflicts(&self, tx_idx: usize) -> (r: Vec<ConflictType>)
        requires
            self.wf(),
        ensures
            all_wf(r@),
            conflict_views(r@).no_duplicates(),
            forall|c: ConflictView|
                conflict_views(r@).contains(c) <==> self@.is_operation_conflict(tx_idx, c),
    {
        let mut conflicts: Vec<ConflictType> = Vec::new();
        let current_reads = match self.tx_read_sets.get(&tx_idx) {
            Some(reads) => reads,
            None => {
                assert(!self@.reads.contains_key(tx_idx));
                return conflicts;
            },
        };
        assert(self@.reads[tx_idx] == current_reads@);
        let ghost order = current_reads.order();
        let ghost mut origin: Seq<int> = Seq::empty();
        let n = current_reads.len();
        for i in 0..n
            invariant
                self.wf(),
                n == order.len(),
                order == current_reads.order(),
                order.no_duplicates(),
                self@.reads.contains_key(tx_idx),
                self@.reads[tx_idx] == current_reads@,
                all_wf(conflicts@),
                origin.len() == conflicts@.len(),
                forall|j: int|
                    0 <= j < conflicts@.len() ==> 0 <= #[trigger] origin[j] < i
                        && self@.is_operation_conflict(tx_idx, conflicts@[j]@)
                        && conflicts@[j]@->address == order[origin[j]].0 && conflicts@[j]@->slot
                        == Some(order[origin[j]].1),
                forall|a: int, b: int| 0 <= a < b < origin.len() ==> origin[a] < origin[b],
                forall|k: int|
                    0 <= k < i && last_write(
                        known(self@.history, #[trigger] order[k]),
                        tx_idx,
                    ) is Some ==> exists|j: int| 0 <= j < origin.len() && #[trigger] origin[j] == k,
        {
            let key = current_reads.at(i);
            let ghost was = origin;
            let ghost earlier = conflicts@;
            match self.operation_history.get(&key) {
                Some(history) => {
                    assert(known(self@.history, key) == history@);
                    self.detect_operation_conflicts(
                        tx_idx,
                        key.0,
                        Some(key.1),
                        history,
                        &mut conflicts,
                    );
                    proof {
                        if last_write(history@, tx_idx) is Some {
                            origin = origin.push(i as int);
                            assert(origin[was.len() as int] == i);
                        }
                    }
                },
                None => {
                    assert(known(self@.history, key) =~= Seq::empty());
                },
            }
            proof {
                assert forall|j: int| 0 <= j < conflicts@.len() implies 0 <= #[trigger] origin[j] < i
                    + 1 && self@.is_operation_conflict(tx_idx, conflicts@[j]@)
                    && conflicts@[j]@->address == order[origin[j]].0 && conflicts@[j]@->slot == Some(
                    order[origin[j]].1,
                ) by {
                    if j < was.len() {
                        assert(origin[j] == was[j]);
                        assert(conflicts@[j] == earlier[j]);
                    } else {
                        assert(origin[j] == i);
                        assert(current_reads@.contains((key.0, key.1)));
                    }
                }
                assert forall|k: int|
                    0 <= k < i + 1 && last_write(
                        known(self@.history, #[trigger] order[k]),
                        tx_idx,
                    ) is Some implies exists|j: int|
                    0 <= j < origin.len() && #[trigger] origin[j] == k by {
                    if k < i {
                        let j = choose|j: int| 0 <= j < was.len() && #[trigger] was[j] == k;
                        assert(origin[j] == k);
                    }
                }
                assert forall|j: int| 0 <= j < conflicts@.len() implies (#[trigger] conflicts@[j]).wf() by {
                    if j < earlier.len() {
                        assert(conflicts@[j] == earlier[j]);
                    }
                }
            }
        }
        proof {
            let views = conflict_views(conflicts@);
            assert forall|c: ConflictView|
                views.contains(c) <==> self@.is_operation_conflict(tx_idx, c) by {
                if views.contains(c) {
                    let j = views.index_of(c);
                    assert(views[j] == conflicts@[j]@);
                    assert(0 <= origin[j] < n);
                }
                if self@.is_operation_conflict(tx_idx, c) {
                    let key = (c->address, c->slot->0);
                    assert(current_reads@.contains(key));
                    let k = order.index_of(key);
                    assert(order[k] == key);
                    let j = choose|j: int| 0 <= j < origin.len() && #[trigger] origin[j] == k;
                    assert(conflicts@[j]@->address == key.0);
                    assert(views[j] == c);
                }
            }
            assert forall|a: int, b: int|
                0 <= a < views.len() && 0 <= b < views.len() && a != b implies views[a]
                != views[b] by {
                assert(origin[a] != origin[b]);
                assert(order[origin[a]] != order[origin[b]]);
                assert(views[a] == conflicts@[a]@ && views[b] == conflicts@[b]@);
            }
        }
        conflicts
    }

    /// Adds the conflict with the last write to a slot by an earlier transaction,
    /// if there is one.
    fn detect_operation_conflicts(
        &self,
        tx_idx: usize,
        address: Address,
        slot: Option<U256>,
        history: &Vec<(usize, usize, bool)>,
        conflicts: &mut Vec<ConflictType>,
    )
        ensures
            match last_write(history@, tx_idx) {
                Some((write_tx_idx, write_op_idx)) => final(conflicts)@ == old(conflicts)@.push(
                    ConflictType::OperationLevel {
                        tx_index: write_tx_idx,
                        op_index: write_op_idx,
                        address,
                        slot,
                    },
                ),
                None => final(conflicts)@ == old(conflicts)@,
            },
    {
        let mut found: Option<(usize, usize)> = None;
        for i in 0..history.len()
            invariant
                found == last_write(history@.take(i as int), tx_idx),
        {
            let (hist_tx_idx, hist_op_idx, is_write) = history[i];
            assert(history@.take(i + 1).drop_last() =~= history@.take(i as int));
            if hist_tx_idx < tx_idx && is_write {
                found = Some((hist_tx_idx, hist_op_idx));
            }
        }
        assert(history@.take(history@.len() as int) =~= history@);
        if let Some((write_tx_idx, write_op_idx)) = found {
            conflicts.push(
                ConflictType::OperationLevel {
                    tx_index: write_tx_idx,
                    op_index: write_op_idx,
                    address,
                    slot,
                },
            );
        }
    }

    fn get_cached_conflicts(&self, tx_idx: usize) -> (r: Option<Vec<ConflictType>>)
        requires
            self.wf(),
        ensures
            match r {
                Some(conflicts) => self@.cache.contains_key((tx_idx, 0)) && conflict_views(
                    conflicts@,
                ) == self@.cache[(tx_idx, 0)] && all_wf(conflicts@),
                None => !self@.cache.contains_key((tx_idx, 0)),
            },
    {
        match self.conflict_cache.get(&(tx_idx, 0)) {
            Some(conflicts) => Some(clone_conflicts(conflicts)),
            None => None,
        }
    }

    fn cache_conflicts(&mut self, tx_idx: usize, conflicts: &Vec<ConflictType>)
        requires
            old(self).wf(),
            all_wf(conflicts@),
        ensures
            final(self).wf(),
            final(self)@ == (DetectorView {
                cache: old(self)@.cache.insert((tx_idx, 0), conflict_views(conflicts@)),
                ..old(self)@
            }),
    {
        self.conflict_cache.insert((tx_idx, 0), clone_conflicts(conflicts));
        assert(self@ =~= DetectorView {
            cache: old(self)@.cache.insert((tx_idx, 0), conflict_views(conflicts@)),
            ..old(self)@
        });
    }

    /// Forgets the answers that were given.
    pub fn clear_cache(&mut self)
        requires
            old(self).wf(),
        ensures
            final(self).wf(),
            final(self)@ == (DetectorView { cache: Map::empty(), ..old(self)@ }),
    {
        self.conflict_cache.clear();
        assert(self@ =~= DetectorView { cache: Map::empty(), ..old(self)@ });
    }
}

/// A slot that no operation touches has no entries.
proof fn lemma_no_entries(tx_idx: usize, ops: Seq<Operation>, key: StorageKey)
    ensures
        !reads_of(ops).contains(key) && !writes_of(ops).contains(key) ==> entries_of(
            tx_idx,
            ops,
            key,
        ) == Seq::<(usize, usize, bool)>::empty(),
    decreases ops.len(),
{
    if ops.len() > 0 && !reads_of(ops).contains(key) && !writes_of(ops).contains(key) {
        let earlier = ops.drop_last();
        assert(ops =~= earlier.push(ops.last()));
        lemma_filed_push(earlier, ops.last());
        lemma_no_entries(tx_idx, earlier, key);
        assert(filed(ops[ops.len() - 1]) == (filed(ops.last()).0, filed(ops.last()).1));
    }
}

/// The last earlier write is an earlier write, and there is one whenever some
/// entry is one.
proof fn lemma_last_write(history: Seq<(usize, usize, bool)>, tx_idx: usize)
    ensures
        last_write(history, tx_idx) matches Some((tx, op)) ==> tx < tx_idx && history.contains(
            (tx, op, true),
        ),
        (exists|i: int| 0 <= i < history.len() && (#[trigger] history[i]).2 && history[i].0 < tx_idx)
            ==> last_write(history, tx_idx) is Some,
    decreases history.len(),
{
    if history.len() > 0 {
        let earlier = history.drop_last();
        lemma_last_write(earlier, tx_idx);
        if let Some((tx, op)) = last_write(earlier, tx_idx) {
            let w = earlier.index_of((tx, op, true));
            assert(history[w] == (tx, op, true));
        }
        if exists|i: int|
            0 <= i < history.len() && (#[trigger] history[i]).2 && history[i].0 < tx_idx {
            let i = choose|i: int|
                0 <= i < history.len() && (#[trigger] history[i]).2 && history[i].0 < tx_idx;
            if i < earlier.len() {
                assert(earlier[i].2 && earlier[i].0 < tx_idx);
            }
        }
        assert(history[history.len() - 1] == history.last());
    }
}

/// A slot that some operation wrote has an entry that is a write.
proof fn lemma_write_has_entry(tx_idx: usize, ops: Seq<Operation>, key: StorageKey)
    requires
        writes_of(ops).contains(key),
    ensures
        exists|i: int|
            0 <= i < entries_of(tx_idx, ops, key).len() && (#[trigger] entries_of(
                tx_idx,
                ops,
                key,
            )[i]).0 == tx_idx && entries_of(tx_idx, ops, key)[i].2,
    decreases ops.len(),
{
    let earlier = ops.drop_last();
    let entries = entries_of(tx_idx, ops, key);
    assert(ops =~= earlier.push(ops.last()));
    lemma_filed_push(earlier, ops.last());
    if filed(ops.last()) == (key, true) {
        let i = entries.len() - 1;
        assert(entries[i].0 == tx_idx && entries[i].2);
    } else {
        lemma_write_has_entry(tx_idx, earlier, key);
        let before = entries_of(tx_idx, earlier, key);
        let i = choose|i: int|
            0 <= i < before.len() && (#[trigger] before[i]).0 == tx_idx && before[i].2;
        assert(entries[i] == before[i]);
    }
}

/// A transaction has conflicts with earlier transactions only.
pub proof fn law_conflicts_are_with_earlier_transactions(
    d: DetectorView,
    tx_idx: usize,
    conflicts: Seq<ConflictView>,
    i: int,
)
    requires
        d.detected(tx_idx, conflicts),
        0 <= i < conflicts.len(),
    ensures
        match conflicts[i] {
            ConflictView::TransactionLevel { tx1_index, tx2_index, .. } => tx1_index == tx_idx
                && tx2_index < tx_idx,
            ConflictView::OperationLevel { tx_index, .. } => tx_index < tx_idx,
        },
{
    let c = conflicts[i];
    assert(conflicts.contains(c));
    if let ConflictView::OperationLevel { address, slot, .. } = c {
        lemma_last_write(known(d.history, (address, slot->0)), tx_idx);
    }
}

/// Where a transaction read a slot that an earlier one wrote, and both logs were
/// analyzed, the earlier one first, its conflicts name the earlier transaction
/// with the account of the slot, and an operation that wrote the slot.
pub proof fn law_reading_an_earlier_write_is_a_conflict(
    d: DetectorView,
    earlier: usize,
    earlier_ops: Seq<Operation>,
    tx_idx: usize,
    ops: Seq<Operation>,
    key: StorageKey,
    conflicts: Seq<ConflictView>,
)
    requires
        earlier < tx_idx,
        writes_of(earlier_ops).contains(key),
        reads_of(ops).contains(key),
        d.analyzed(earlier, earlier_ops).analyzed(tx_idx, ops).detected(tx_idx, conflicts),
    ensures
        exists|i: int|
            0 <= i < conflicts.len() && (#[trigger] conflicts[i] matches
                ConflictView::TransactionLevel { tx2_index, addresses, .. } && tx2_index == earlier
                && addresses.contains(key.0)),
        exists|i: int|
            0 <= i < conflicts.len() && (#[trigger] conflicts[i] matches
                ConflictView::OperationLevel { address, slot, .. } && (address, slot) == (
            key.0,
            Some(key.1),
        )),
{
    let e = d.analyzed(earlier, earlier_ops);
    let t = e.analyzed(tx_idx, ops);
    assert(t.writes[earlier] == writes_of(earlier_ops));
    let addresses = shared_addresses(t.reads[tx_idx], t.writes[tx_idx], t.writes[earlier]);
    assert(t.reads[tx_idx].contains((key.0, key.1)));
    assert(addresses.contains(key.0));
    let c = ConflictView::TransactionLevel { tx1_index: tx_idx, tx2_index: earlier, addresses };
    assert(t.is_transaction_conflict(tx_idx, c));
    assert(conflicts.contains(c));
    let i = conflicts.index_of(c);
    assert(conflicts[i] == c);

    lemma_write_has_entry(earlier, earlier_ops, key);
    let before = entries_of(earlier, earlier_ops, key);
    let w = choose|w: int| 0 <= w < before.len() && (#[trigger] before[w]).0 == earlier && before[w].2;
    let history = known(t.history, key);
    assert(known(e.history, key) =~= known(d.history, key) + before);
    assert(history =~= known(d.history, key) + before + entries_of(tx_idx, ops, key));
    let v = known(d.history, key).len() + w;
    assert(history[v] == before[w]);
    lemma_last_write(history, tx_idx);
    let found = last_write(history, tx_idx)->0;
    let o = ConflictView::OperationLevel {
        tx_index: found.0,
        op_index: found.1,
        address: key.0,
        slot: Some(key.1),
    };
    assert(t.is_operation_conflict(tx_idx, o));
    assert(conflicts.contains(o));
    let j = conflicts.index_of(o);
    assert(conflicts[j] == o);
}

/// A transaction that shares no slot with the writes of an earlier one has no
/// conflict with it as a whole.
pub proof fn law_no_shared_slot_no_conflict(
    d: DetectorView,
    tx_idx: usize,
    earlier: usize,
    conflicts: Seq<ConflictView>,
    i: int,
)
    requires
        d.detected(tx_idx, conflicts),
        d.reads.contains_key(tx_idx),
        d.writes.contains_key(tx_idx),
        d.writes.contains_key(earlier),
        d.reads[tx_idx].disjoint(d.writes[earlier]),
        d.writes[tx_idx].disjoint(d.writes[earlier]),
        0 <= i < conflicts.len(),
    ensures
        conflicts[i] matches ConflictView::TransactionLevel { tx2_index, .. } ==> tx2_index
            != earlier,
{
    let c = conflicts[i];
    assert(conflicts.contains(c));
    if c is TransactionLevel && c->tx2_index == earlier {
        assert(c->addresses =~= Set::<Address>::empty());
    }
}

/// Whether every write in the history is among the writes of its transaction.
pub open spec fn history_is_backed(d: DetectorView) -> bool {
    forall|key: StorageKey, i: int|
        0 <= i < known(d.history, key).len() && (#[trigger] known(d.history, key)[i]).2
            ==> d.writes.contains_key(known(d.history, key)[i].0)
            && d.writes[known(d.history, key)[i].0].contains(key)
}

proof fn lemma_entries_are_backed(tx_idx: usize, ops: Seq<Operation>, key: StorageKey)
    ensures
        forall|i: int|
            0 <= i < entries_of(tx_idx, ops, key).len() ==> (#[trigger] entries_of(
                tx_idx,
                ops,
                key,
            )[i]).0 == tx_idx && (entries_of(tx_idx, ops, key)[i].2 ==> writes_of(ops).contains(
                key,
            )),
    decreases ops.len(),
{
    if ops.len() > 0 {
        let rest = ops.drop_last();
        lemma_entries_are_backed(tx_idx, rest, key);
        assert(ops.last() == ops[ops.len() - 1]);
        assert(files(rest, key, true) ==> files(ops, key, true)) by {
            if files(rest, key, true) {
                let w = choose|w: int|
                    0 <= w < rest.len() && filed(#[trigger] rest[w]) == (key, true);
                assert(filed(ops[w]) == (key, true));
            }
        }
        let all = entries_of(tx_idx, ops, key);
        let earlier = entries_of(tx_idx, rest, key);
        assert forall|i: int| 0 <= i < all.len() implies (#[trigger] all[i]).0 == tx_idx && (
        all[i].2 ==> writes_of(ops).contains(key)) by {
            if i < earlier.len() {
                assert(all[i] == earlier[i]);
            } else {
                assert(filed(ops[ops.len() - 1]).0 == key);
            }
        }
    }
}

/// The history stays backed when the log of a transaction is analyzed for the first time.
pub proof fn law_a_first_log_keeps_the_history_backed(
    d: DetectorView,
    tx_idx: usize,
    ops: Seq<Operation>,
)
    requires
        history_is_backed(d),
        !d.writes.contains_key(tx_idx),
    ensures
        history_is_backed(d.analyzed(tx_idx, ops)),
{
    let after = d.analyzed(tx_idx, ops);
    assert forall|key: StorageKey, i: int|
        0 <= i < known(after.history, key).len() && (#[trigger] known(after.history, key)[i]).2
        implies after.writes.contains_key(known(after.history, key)[i].0) && after.writes[known(
        after.history,
        key,
    )[i].0].contains(key) by {
        lemma_entries_are_backed(tx_idx, ops, key);
        lemma_no_entries(tx_idx, ops, key);
        let old = known(d.history, key);
        let new = entries_of(tx_idx, ops, key);
        assert(known(after.history, key) =~= old + new);
        if i < old.len() {
            assert(known(after.history, key)[i] == known(d.history, key)[i]);
        } else {
            assert(known(after.history, key)[i] == new[i - old.len()]);
        }
    }
}

/// A transaction that shares no slot with the writes of any earlier one has no conflicts
/// at all.
pub proof fn law_nothing_shared_no_conflicts(
    d: DetectorView,
    tx_idx: usize,
    conflicts: Seq<ConflictView>,
)
    requires
        history_is_backed(d),
        d.detected(tx_idx, conflicts),
        forall|earlier: usize|
            earlier < tx_idx && #[trigger] d.writes.contains_key(earlier) ==> (
            d.reads.contains_key(tx_idx) ==> d.reads[tx_idx].disjoint(d.writes[earlier])) && (
            d.writes.contains_key(tx_idx) ==> d.writes[tx_idx].disjoint(d.writes[earlier])),
    ensures
        conflicts.len() == 0,
{
    if conflicts.len() > 0 {
        let c = conflicts[0];
        assert(conflicts.contains(c));
        if let ConflictView::TransactionLevel { tx2_index, addresses, .. } = c {
            assert(d.is_transaction_conflict(tx_idx, c));
            assert(d.writes.contains_key(tx2_index));
            assert(addresses =~= Set::<Address>::empty());
        }
        if let ConflictView::OperationLevel { tx_index, op_index, address, slot } = c {
            assert(d.is_operation_conflict(tx_idx, c));
            let key = (address, slot->0);
            let history = known(d.history, key);
            lemma_last_write(history, tx_idx);
            let i = history.index_of((tx_index, op_index, true));
            assert(known(d.history, key)[i].2);
            assert(d.writes.contains_key(tx_index));
            assert(d.reads[tx_idx].contains(key));
            assert(d.writes[tx_index].contains(key));
        }
    }
}

} // verus!
