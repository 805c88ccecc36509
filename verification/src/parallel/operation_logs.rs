//! The log of what one transaction read, wrote and accessed.
use crate::collections::KeySet;
use crate::db::versioned::VersionedStateDB;
use crate::primitives::{Address, StorageKey, U256};
use vstd::prelude::*;

verus! {

/// One access that a transaction made.
#[derive(Clone, Copy, Debug, PartialEq, Eq, Structural)]
pub enum Operation {
    Read { address: Address, slot: U256 },
    Write { address: Address, slot: U256, value: U256, original_value: U256 },
    AccountAccess { address: Address },
    CodeAccess { address: Address },
}

/// The account that an operation touches.
pub open spec fn address_of(op: Operation) -> Address {
    match op {
        Operation::Read { address, .. } => address,
        Operation::Write { address, .. } => address,
        Operation::AccountAccess { address } => address,
        Operation::CodeAccess { address } => address,
    }
}

impl Operation {
    /// The account that the operation touches.
    pub fn address(&self) -> (r: Address)
        ensures
            r == address_of(*self),
    {
        match self {
            Operation::Read { address, .. } => *address,
            Operation::Write { address, .. } => *address,
            Operation::AccountAccess { address } => *address,
            Operation::CodeAccess { address } => *address,
        }
    }
}

#[derive(Clone, Copy, Debug, PartialEq, Eq, Structural)]
pub enum OperationLogError {
    /// An operation was attempted on a finalized log.
    LogFinalized,
    /// The same operation was recorded twice.
    DuplicateOperation,
    /// A slot was read after it was written.
    InvalidOrder,
    /// The versions do not match.
    VersionMismatch,
}

/// A slot access in the order in which it was recorded.
#[derive(Clone, Copy, Debug, PartialEq, Eq, Structural)]
pub enum OperationType {
    Read(Address, U256),
    Write(Address, U256),
}

/// The block and the transaction that a log belongs to.
#[derive(Debug)]
pub struct Context<BLOCK, TX> {
    pub block: BLOCK,
    pub tx: TX,
}

/// What one transaction did.
#[derive(Debug)]
pub struct OperationLog<'a, BLOCK, TX> {
    operations: Vec<Operation>,
    accessed_slots: KeySet<StorageKey>,
    accessed_accounts: KeySet<Address>,
    version: u64,
    tx_index: usize,
    read_count: usize,
    write_count: usize,
    account_access_count: usize,
    reads: Vec<(Address, U256)>,
    writes: Vec<(Address, U256, U256)>,
    finalized: bool,
    operation_order: Vec<OperationType>,
    context: &'a Context<BLOCK, TX>,
}

/// A log as sequences and sets.
#[verifier::ext_equal]
pub struct LogView {
    pub operations: Seq<Operation>,
    pub slots: Set<StorageKey>,
    pub accounts: Set<Address>,
    pub version: u64,
    pub tx_index: usize,
    pub read_count: int,
    pub write_count: int,
    pub account_access_count: int,
    pub reads: Seq<(Address, U256)>,
    pub writes: Seq<(Address, U256, U256)>,
    pub finalized: bool,
    pub order: Seq<OperationType>,
}

/// A log in which nothing was recorded yet.
pub open spec fn empty_log(tx_index: usize, version: u64) -> LogView {
    LogView {
        operations: Seq::empty(),
        slots: Set::empty(),
        accounts: Set::empty(),
        version,
        tx_index,
        read_count: 0,
        write_count: 0,
        account_access_count: 0,
        reads: Seq::empty(),
        writes: Seq::empty(),
        finalized: false,
        order: Seq::empty(),
    }
}

/// The slot accesses among some operations, in their order.
pub open spec fn slot_accesses(operations: Seq<Operation>) -> Seq<OperationType>
    decreases operations.len(),
{
    if operations.len() == 0 {
        Seq::empty()
    } else {
        let earlier = slot_accesses(operations.drop_last());
        match operations.last() {
            Operation::Read { address, slot } => earlier.push(OperationType::Read(address, slot)),
            Operation::Write { address, slot, .. } => earlier.push(
                OperationType::Write(address, slot),
            ),
            _ => earlier,
        }
    }
}

/// How many of some operations satisfy a condition.
pub open spec fn count_where(operations: Seq<Operation>, p: spec_fn(Operation) -> bool) -> int
    decreases operations.len(),
{
    if operations.len() == 0 {
        0
    } else {
        count_where(operations.drop_last(), p) + if p(operations.last()) {
            1int
        } else {
            0
        }
    }
}

/// Whether an operation reads or writes a slot.
pub open spec fn touches_slot(op: Operation, key: StorageKey) -> bool {
    match op {
        Operation::Read { address, slot } => (address, slot) == key,
        Operation::Write { address, slot, .. } => (address, slot) == key,
        _ => false,
    }
}

/// Whether an operation accesses an account as a whole.
pub open spec fn touches_account(op: Operation, account: Address) -> bool {
    match op {
        Operation::AccountAccess { address } => address == account,
        Operation::CodeAccess { address } => address == account,
        _ => false,
    }
}

impl LogView {
    /// The slots, the accounts, the order and the counts all tell of the same
    /// operations; every read in the order was noted once among the reads, and
    /// every write among the writes.
    pub open spec fn consistent(self) -> bool {
        &&& self.order == slot_accesses(self.operations)
        &&& self.read_count == count_where(self.operations, |op: Operation| op is Read)
        &&& self.write_count == count_where(self.operations, |op: Operation| op is Write)
        &&& self.account_access_count == count_where(
            self.operations,
            |op: Operation| op is AccountAccess,
        )
        &&& forall|key: StorageKey|
            self.slots.contains(key) <==> exists|i: int|
                0 <= i < self.operations.len() && #[trigger] touches_slot(self.operations[i], key)
        &&& forall|account: Address|
            self.accounts.contains(account) <==> exists|i: int|
                0 <= i < self.operations.len() && #[trigger] touches_account(
                    self.operations[i],
                    account,
                )
        &&& forall|i: int|
            0 <= i < self.order.len() ==> match #[trigger] self.order[i] {
                OperationType::Read(address, slot) => self.reads.contains((address, slot)),
                OperationType::Write(address, slot) => wrote(self.writes, (address, slot)),
            }
        &&& forall|i: int, j: int|
            0 <= i < j < self.order.len() && self.order[i] is Read ==> #[trigger] self.order[i]
                != #[trigger] self.order[j]
    }

    /// Some slot access was recorded twice.
    pub open spec fn has_duplicate(self) -> bool {
        !self.order.no_duplicates()
    }

    /// Some slot was read after it had been written.
    pub open spec fn reads_after_write(self) -> bool {
        exists|i: int, j: int|
            0 <= i < j < self.order.len() && is_write_then_read(
                #[trigger] self.order[i],
                #[trigger] self.order[j],
            )
    }

    /// What `validate` says of the log.
    pub open spec fn validity(self) -> Result<(), OperationLogError> {
        if self.has_duplicate() {
            Err(OperationLogError::DuplicateOperation)
        } else if self.reads_after_write() {
            Err(OperationLogError::InvalidOrder)
        } else {
            Ok(())
        }
    }

    /// One more read of a slot, with everything that goes with it.
    pub open spec fn with_read(self, address: Address, slot: U256) -> LogView {
        LogView {
            operations: self.operations.push(Operation::Read { address, slot }),
            slots: self.slots.insert((address, slot)),
            reads: self.reads.push((address, slot)),
            read_count: self.read_count + 1,
            order: self.order.push(OperationType::Read(address, slot)),
            ..self
        }
    }

    /// One more write of a slot, with everything that goes with it.
    pub open spec fn with_write(
        self,
        address: Address,
        slot: U256,
        value: U256,
        original_value: U256,
    ) -> LogView {
        LogView {
            operations: self.operations.push(
                Operation::Write { address, slot, value, original_value },
            ),
            slots: self.slots.insert((address, slot)),
            writes: self.writes.push((address, slot, value)),
            write_count: self.write_count + 1,
            order: self.order.push(OperationType::Write(address, slot)),
            ..self
        }
    }

    /// One more access to an account.
    pub open spec fn with_account_access(self, address: Address) -> LogView {
        LogView {
            operations: self.operations.push(Operation::AccountAccess { address }),
            accounts: self.accounts.insert(address),
            account_access_count: self.account_access_count + 1,
            ..self
        }
    }

    /// One more access to an account's code.
    pub open spec fn with_code_access(self, address: Address) -> LogView {
        LogView {
            operations: self.operations.push(Operation::CodeAccess { address }),
            accounts: self.accounts.insert(address),
            ..self
        }
    }

    /// The slots that were noted as read.
    pub open spec fn read_set(self) -> Set<StorageKey> {
        self.reads.to_set()
    }

    /// The slots that were noted as written.
    pub open spec fn write_set(self) -> Set<StorageKey> {
        Set::new(|key: StorageKey| wrote(self.writes, key))
    }

    /// A slot that this log noted and that the other noted as written.
    pub open spec fn slot_conflict(self, other: LogView, key: StorageKey) -> bool {
        (self.read_set().contains(key) || self.write_set().contains(key))
            && other.write_set().contains(key)
    }
}

/// Whether a slot is among some writes.
pub open spec fn wrote(writes: Seq<(Address, U256, U256)>, key: StorageKey) -> bool {
    exists|i: int| 0 <= i < writes.len() && slot_of_write(#[trigger] writes[i]) == key
}

/// The slot that a write went to.
pub open spec fn slot_of_write(write: (Address, U256, U256)) -> StorageKey {
    (write.0, write.1)
}

pub open spec fn is_write_then_read(first: OperationType, second: OperationType) -> bool {
    match (first, second) {
        (OperationType::Write(a, s), OperationType::Read(b, t)) => a == b && s == t,
        _ => false,
    }
}

/// How many of some writes went to a slot.
pub open spec fn writes_to(writes: Seq<(Address, U256, U256)>, key: StorageKey) -> nat
    decreases writes.len(),
{
    if writes.len() == 0 {
        0
    } else {
        writes_to(writes.drop_last(), key) + if slot_of_write(writes.last()) == key {
            1nat
        } else {
            0
        }
    }
}

/// Each read slot in turn, once for every write that went to it.
pub open spec fn overlaps(
    reads: Seq<(Address, U256)>,
    writes: Seq<(Address, U256, U256)>,
) -> Seq<(Address, U256)>
    decreases reads.len(),
{
    if reads.len() == 0 {
        Seq::empty()
    } else {
        overlaps(reads.drop_last(), writes) + Seq::new(
            writes_to(writes, reads.last()),
            |i: int| reads.last(),
        )
    }
}

impl<'a, BLOCK, TX> View for OperationLog<'a, BLOCK, TX> {
    type V = LogView;

    closed spec fn view(&self) -> LogView {
        LogView {
            operations: self.operations@,
            slots: self.accessed_slots@,
            accounts: self.accessed_accounts@,
            version: self.version,
            tx_index: self.tx_index,
            read_count: self.read_count as int,
            write_count: self.write_count as int,
            account_access_count: self.account_access_count as int,
            reads: self.reads@,
            writes: self.writes@,
            finalized: self.finalized,
            order: self.operation_order@,
        }
    }
}

proof fn lemma_count_push(operations: Seq<Operation>, op: Operation, p: spec_fn(Operation) -> bool)
    ensures
        count_where(operations.push(op), p) == count_where(operations, p) + if p(op) {
            1int
        } else {
            0
        },
{
    assert(operations.push(op).drop_last() =~= operations);
}

proof fn lemma_count_bound(operations: Seq<Operation>, p: spec_fn(Operation) -> bool)
    ensures
        0 <= count_where(operations, p) <= operations.len(),
    decreases operations.len(),
{
    if operations.len() > 0 {
        lemma_count_bound(operations.drop_last(), p);
    }
}

proof fn lemma_wrote_push(
    writes: Seq<(Address, U256, U256)>,
    write: (Address, U256, U256),
    key: StorageKey,
)
    ensures
        wrote(writes.push(write), key) == (wrote(writes, key) || slot_of_write(write) == key),
{
    let after = writes.push(write);
    if wrote(writes, key) {
        let i = choose|i: int| 0 <= i < writes.len() && slot_of_write(#[trigger] writes[i]) == key;
        assert(slot_of_write(after[i]) == key);
    }
    if slot_of_write(write) == key {
        assert(slot_of_write(after[writes.len() as int]) == key);
    }
    if wrote(after, key) {
        let i = choose|i: int| 0 <= i < after.len() && slot_of_write(#[trigger] after[i]) == key;
        if i < writes.len() {
            assert(slot_of_write(writes[i]) == key);
        }
    }
}

/// Whatever is recorded, a consistent log stays consistent.
proof fn lemma_push_keeps_consistent(before: LogView, op: Operation, after: LogView)
    requires
        before.consistent(),
        match op {
            Operation::Read { address, slot } => after == before.with_read(address, slot)
                && !before.reads.contains((address, slot)),
            Operation::Write { address, slot, value, original_value } => after
                == before.with_write(address, slot, value, original_value),
            Operation::AccountAccess { address } => after == before.with_account_access(address),
            Operation::CodeAccess { address } => after == before.with_code_access(address),
        },
    ensures
        after.consistent(),
{
    let n = before.operations.len() as int;
    assert(after.operations == before.operations.push(op));
    assert(after.operations.drop_last() =~= before.operations);
    lemma_count_push(before.operations, op, |op: Operation| op is Read);
    lemma_count_push(before.operations, op, |op: Operation| op is Write);
    lemma_count_push(before.operations, op, |op: Operation| op is AccountAccess);
    assert forall|key: StorageKey|
        after.slots.contains(key) <==> exists|i: int|
            0 <= i < after.operations.len() && #[trigger] touches_slot(after.operations[i], key) by {
        if before.slots.contains(key) {
            let i = choose|i: int|
                0 <= i < before.operations.len() && #[trigger] touches_slot(
                    before.operations[i],
                    key,
                );
            assert(touches_slot(after.operations[i], key));
        }
        if touches_slot(op, key) {
            assert(touches_slot(after.operations[n], key));
        }
        if exists|i: int|
            0 <= i < after.operations.len() && #[trigger] touches_slot(after.operations[i], key) {
            let i = choose|i: int|
                0 <= i < after.operations.len() && #[trigger] touches_slot(
                    after.operations[i],
                    key,
                );
            if i < n {
                assert(touches_slot(before.operations[i], key));
            }
        }
    }
    assert forall|account: Address|
        after.accounts.contains(account) <==> exists|i: int|
            0 <= i < after.operations.len() && #[trigger] touches_account(
                after.operations[i],
                account,
            ) by {
        if before.accounts.contains(account) {
            let i = choose|i: int|
                0 <= i < before.operations.len() && #[trigger] touches_account(
                    before.operations[i],
                    account,
                );
            assert(touches_account(after.operations[i], account));
        }
        if touches_account(op, account) {
            assert(touches_account(after.operations[n], account));
        }
        if exists|i: int|
            0 <= i < after.operations.len() && #[trigger] touches_account(
                after.operations[i],
                account,
            ) {
            let i = choose|i: int|
                0 <= i < after.operations.len() && #[trigger] touches_account(
                    after.operations[i],
                    account,
                );
            if i < n {
                assert(touches_account(before.operations[i], account));
            }
        }
    }
    assert forall|i: int| 0 <= i < after.order.len() implies match #[trigger] after.order[i] {
        OperationType::Read(address, slot) => after.reads.contains((address, slot)),
        OperationType::Write(address, slot) => wrote(after.writes, (address, slot)),
    } by {
        if i < before.order.len() {
            assert(after.order[i] == before.order[i]);
            match before.order[i] {
                OperationType::Read(address, slot) => {
                    let w = before.reads.index_of((address, slot));
                    assert(after.reads[w] == (address, slot));
                },
                OperationType::Write(address, slot) => {
                    if let Operation::Write { address: a, slot: s, value, .. } = op {
                        lemma_wrote_push(before.writes, (a, s, value), (address, slot));
                    }
                },
            }
        } else {
            match op {
                Operation::Read { address, slot } => {
                    assert(after.reads[before.reads.len() as int] == (address, slot));
                },
                Operation::Write { address, slot, value, .. } => {
                    lemma_wrote_push(before.writes, (address, slot, value), (address, slot));
                },
                _ => {},
            }
        }
    }
}

impl<'a, BLOCK, TX> OperationLog<'a, BLOCK, TX> {
    pub closed spec fn wf(self) -> bool {
        &&& self.accessed_slots.wf()
        &&& self.accessed_accounts.wf()
        &&& self@.consistent()
    }

    /// The block and the transaction of the log.
    pub closed spec fn context(self) -> Context<BLOCK, TX> {
        *self.context
    }

    /// An empty log for the transaction at `tx_index`. How many operations to
    /// expect is a hint only.
    pub fn new(tx_index: usize, estimated_ops: usize, context: &'a Context<BLOCK, TX>) -> (r: Self)
        ensures
            r.wf(),
            r@ == empty_log(tx_index, 0),
            r.context() == *context,
    {
        let expected: usize = if estimated_ops < 1024 {
            estimated_ops
        } else {
            1024
        };
        let r = OperationLog {
            operations: Vec::with_capacity(64),
            accessed_slots: KeySet::new(),
            accessed_accounts: KeySet::new(),
            version: 0,
            tx_index,
            read_count: 0,
            write_count: 0,
            account_access_count: 0,
            reads: Vec::with_capacity(expected),
            writes: Vec::with_capacity(expected / 2),
            finalized: false,
            operation_order: Vec::with_capacity(expected),
            context,
        };
        assert(r@ =~= empty_log(tx_index, 0));
        r
    }

    /// Notes a read of a slot, and nothing else.
    pub fn record_read(&mut self, address: Address, slot: U256)
        requires
            old(self).wf(),
        ensures
            final(self).wf(),
            final(self)@ == (LogView {
                reads: old(self)@.reads.push((address, slot)),
                ..old(self)@
            }),
            final(self).context() == old(self).context(),
    {
        self.reads.push((address, slot));
        proof {
            assert(self@ =~= LogView {
                reads: old(self)@.reads.push((address, slot)),
                ..old(self)@
            });
            assert forall|i: int| 0 <= i < self@.order.len() implies match #[trigger] self@.order[i] {
                OperationType::Read(a, s) => self@.reads.contains((a, s)),
                OperationType::Write(a, s) => wrote(self@.writes, (a, s)),
            } by {
                if let OperationType::Read(a, s) = old(self)@.order[i] {
                    let w = old(self)@.reads.index_of((a, s));
                    assert(self@.reads[w] == (a, s));
                }
            }
        }
    }

    /// Records a read of a slot. A slot is read once at most; what was read is
    /// not looked up in the state.
    pub fn record_read_versioned(
        &mut self,
        address: Address,
        slot: U256,
        _db: &VersionedStateDB,
    ) -> (r: Result<(), OperationLogError>)
        requires
            old(self).wf(),
        ensures
            final(self).wf(),
            r == (if old(self)@.finalized {
                Err::<(), OperationLogError>(OperationLogError::LogFinalized)
            } else if old(self)@.reads.contains((address, slot)) {
                Err(OperationLogError::DuplicateOperation)
            } else {
                Ok(())
            }),
            r is Ok ==> final(self)@ == old(self)@.with_read(address, slot),
            r is Err ==> *final(self) == *old(self),
            final(self).context() == old(self).context(),
    {
        if self.finalized {
            return Err(OperationLogError::LogFinalized);
        }
        let n = self.reads.len();
        for i in 0..n
            invariant
                *self == *old(self),
                self.wf(),
                !self.finalized,
                n == self.reads@.len(),
                forall|j: int| 0 <= j < i ==> self.reads@[j] != (address, slot),
        {
            if self.reads[i].0 == address && self.reads[i].1 == slot {
                assert(self.reads@[i as int] == (address, slot));
                return Err(OperationLogError::DuplicateOperation);
            }
        }
        self.reads.push((address, slot));
        self.operations.push(Operation::Read { address, slot });
        self.accessed_slots.insert((address, slot));
        proof {
            lemma_count_bound(old(self)@.operations, |op: Operation| op is Read);
        }
        assert(self.operations.len() == old(self)@.operations.len() + 1);
        self.read_count = self.read_count + 1;
        self.operation_order.push(OperationType::Read(address, slot));
        proof {
            assert(self@ =~= old(self)@.with_read(address, slot));
            lemma_push_keeps_consistent(
                old(self)@,
                Operation::Read { address, slot },
                self@,
            );
        }
        Ok(())
    }

    /// Notes a write of a slot, and nothing else.
    pub fn record_write(&mut self, address: Address, slot: U256, value: U256)
        requires
            old(self).wf(),
        ensures
            final(self).wf(),
            final(self)@ == (LogView {
                writes: old(self)@.writes.push((address, slot, value)),
                ..old(self)@
            }),
            final(self).context() == old(self).context(),
    {
        self.writes.push((address, slot, value));
        proof {
            assert(self@ =~= LogView {
                writes: old(self)@.writes.push((address, slot, value)),
                ..old(self)@
            });
            assert forall|i: int| 0 <= i < self@.order.len() implies match #[trigger] self@.order[i] {
                OperationType::Read(a, s) => self@.reads.contains((a, s)),
                OperationType::Write(a, s) => wrote(self@.writes, (a, s)),
            } by {
                if let OperationType::Write(a, s) = old(self)@.order[i] {
                    lemma_wrote_push(old(self)@.writes, (address, slot, value), (a, s));
                }
            }
        }
    }

    /// Records a write of a slot, with the value it had before.
    pub fn record_write_versioned(
        &mut self,
        address: Address,
        slot: U256,
        value: U256,
        original_value: U256,
    ) -> (r: Result<(), OperationLogError>)
        requires
            old(self).wf(),
        ensures
            final(self).wf(),
            r == (if old(self)@.finalized {
                Err::<(), OperationLogError>(OperationLogError::LogFinalized)
            } else {
                Ok(())
            }),
            r is Ok ==> final(self)@ == old(self)@.with_write(address, slot, value, original_value),
            r is Err ==> *final(self) == *old(self),
            final(self).context() == old(self).context(),
    {
        if self.finalized {
            return Err(OperationLogError::LogFinalized);
        }
        self.operations.push(Operation::Write { address, slot, value, original_value });
        self.accessed_slots.insert((address, slot));
        self.writes.push((address, slot, value));
        proof {
            lemma_count_bound(old(self)@.operations, |op: Operation| op is Write);
        }
        assert(self.operations.len() == old(self)@.operations.len() + 1);
        self.write_count = self.write_count + 1;
        self.operation_order.push(OperationType::Write(address, slot));
        proof {
            assert(self@ =~= old(self)@.with_write(address, slot, value, original_value));
            lemma_push_keeps_consistent(
                old(self)@,
                Operation::Write { address, slot, value, original_value },
                self@,
            );
        }
        Ok(())
    }

    /// Records an access to an account.
    pub fn record_account_access(&mut self, address: Address)
        requires
            old(self).wf(),
        ensures
            final(self).wf(),
            final(self)@ == old(self)@.with_account_access(address),
            final(self).context() == old(self).context(),
    {
        self.operations.push(Operation::AccountAccess { address });
        self.accessed_accounts.insert(address);
        proof {
            lemma_count_bound(old(self)@.operations, |op: Operation| op is AccountAccess);
        }
        assert(self.operations.len() == old(self)@.operations.len() + 1);
        self.account_access_count = self.account_access_count + 1;
        proof {
            assert(self@ =~= old(self)@.with_account_access(address));
            lemma_push_keeps_consistent(old(self)@, Operation::AccountAccess { address }, self@);
        }
    }

    /// Records an access to an account's code.
    pub fn record_code_access(&mut self, address: Address)
        requires
            old(self).wf(),
        ensures
            final(self).wf(),
            final(self)@ == old(self)@.with_code_access(address),
            final(self).context() == old(self).context(),
    {
        self.operations.push(Operation::CodeAccess { address });
        self.accessed_accounts.insert(address);
        proof {
            assert(self@ =~= old(self)@.with_code_access(address));
            lemma_push_keeps_consistent(old(self)@, Operation::CodeAccess { address }, self@);
        }
    }

    pub fn get_block_info(&self) -> (r: &BLOCK)
        ensures
            *r == self.context().block,
    {
        &self.context.block
    }

    pub fn get_tx_info(&self) -> (r: &TX)
        ensures
            *r == self.context().tx,
    {
        &self.context.tx
    }

    /// Each noted read that some noted write overlaps, in the order of the reads,
    /// once for every such write.
    pub fn check_conflicts(&self) -> (r: Vec<(Address, U256)>)
        ensures
            r@ == overlaps(self@.reads, self@.writes),
    {
        let mut conflicts: Vec<(Address, U256)> = Vec::new();
        let ghost reads = self.reads@;
        let ghost writes = self.writes@;
        for i in 0..self.reads.len()
            invariant
                reads == self.reads@,
                writes == self.writes@,
                conflicts@ == overlaps(reads.take(i as int), writes),
        {
            let (address, slot) = self.reads[i];
            let ghost before = conflicts@;
            for j in 0..self.writes.len()
                invariant
                    writes == self.writes@,
                    conflicts@ == before + Seq::new(
                        writes_to(writes.take(j as int), (address, slot)),
                        |k: int| (address, slot),
                    ),
            {
                let ghost earlier = writes_to(writes.take(j as int), (address, slot));
                assert(writes.take(j + 1).drop_last() =~= writes.take(j as int));
                if address == self.writes[j].0 && slot == self.writes[j].1 {
                    conflicts.push((address, slot));
                    assert(Seq::new(earlier + 1, |k: int| (address, slot)) =~= Seq::new(
                        earlier,
                        |k: int| (address, slot),
                    ).push((address, slot)));
                }
                assert(conflicts@ =~= before + Seq::new(
                    writes_to(writes.take(j + 1), (address, slot)),
                    |k: int| (address, slot),
                ));
            }
            proof {
                assert(writes.take(writes.len() as int) =~= writes);
                assert(reads.take(i + 1).drop_last() =~= reads.take(i as int));
                assert(conflicts@ =~= overlaps(reads.take(i + 1), writes));
            }
        }
        assert(reads.take(reads.len() as int) =~= reads);
        conflicts
    }

    /// The slots that were noted as read, and those noted as written.
    pub fn extract_read_write_sets(&self) -> (r: (KeySet<StorageKey>, KeySet<StorageKey>))
        ensures
            r.0.wf(),
            r.1.wf(),
            r.0@ == self@.read_set(),
            r.1@ == self@.write_set(),
    {
        let mut read_set: KeySet<StorageKey> = KeySet::new();
        let ghost reads = self.reads@;
        for i in 0..self.reads.len()
            invariant
                reads == self.reads@,
                read_set.wf(),
                read_set@ == reads.take(i as int).to_set(),
        {
            read_set.insert(self.reads[i]);
            proof {
                assert(reads.take(i + 1) =~= reads.take(i as int).push(reads[i as int]));
                reads.take(i as int).lemma_push_to_set_commute(reads[i as int]);
            }
        }
        let mut write_set: KeySet<StorageKey> = KeySet::new();
        let ghost writes = self.writes@;
        for i in 0..self.writes.len()
            invariant
                writes == self.writes@,
                write_set.wf(),
                forall|key: StorageKey|
                    write_set@.contains(key) == wrote(writes.take(i as int), key),
        {
            write_set.insert((self.writes[i].0, self.writes[i].1));
            proof {
                assert(writes.take(i + 1) =~= writes.take(i as int).push(writes[i as int]));
                assert forall|key: StorageKey|
                    write_set@.contains(key) == wrote(writes.take(i + 1), key) by {
                    lemma_wrote_push(writes.take(i as int), writes[i as int], key);
                }
            }
        }
        proof {
            assert(reads.take(reads.len() as int) =~= reads);
            assert(writes.take(writes.len() as int) =~= writes);
            assert(write_set@ =~= self@.write_set());
        }
        (read_set, write_set)
    }

    /// A conflict of this log with that of an earlier transaction: a slot that the
    /// earlier one noted as written and this one noted at all, or else an account
    /// that both accessed. A log has no conflict with itself nor with a later one.
    pub fn detect_conflicts(&self, other: &OperationLog<'a, BLOCK, TX>) -> (r: Option<Conflict>)
        ensures
            match r {
                Some(Conflict::StorageSlot(address, slot)) => other@.tx_index < self@.tx_index
                    && self@.slot_conflict(other@, (address, slot)),
                Some(Conflict::AccountAccess(address)) => other@.tx_index < self@.tx_index
                    && self@.accounts.contains(address) && other@.accounts.contains(address)
                    && forall|key: StorageKey| !self@.slot_conflict(other@, key),
                None => other@.tx_index < self@.tx_index ==> (forall|key: StorageKey|
                    !self@.slot_conflict(other@, key)) && self@.accounts.disjoint(other@.accounts),
            },
    {
        if other.tx_index >= self.tx_index {
            return None;
        }
        let (reads, writes) = self.extract_read_write_sets();
        let (_, theirs) = other.extract_read_write_sets();
        let n = reads.len();
        for i in 0..n
            invariant
                n == reads.order().len(),
                reads@ == self@.read_set(),
                theirs@ == other@.write_set(),
                other@.tx_index < self@.tx_index,
                forall|j: int| 0 <= j < i ==> !theirs@.contains(#[trigger] reads.order()[j]),
        {
            let key = reads.at(i);
            if theirs.contains(&key) {
                return Some(Conflict::StorageSlot(key.0, key.1));
            }
        }
        let m = writes.len();
        for i in 0..m
            invariant
                m == writes.order().len(),
                writes@ == self@.write_set(),
                theirs@ == other@.write_set(),
                other@.tx_index < self@.tx_index,
                forall|j: int| 0 <= j < i ==> !theirs@.contains(#[trigger] writes.order()[j]),
        {
            let key = writes.at(i);
            if theirs.contains(&key) {
                return Some(Conflict::StorageSlot(key.0, key.1));
            }
        }
        proof {
            assert forall|key: StorageKey| !self@.slot_conflict(other@, key) by {
                if reads@.contains(key) {
                    let w = reads.order().index_of(key);
                    assert(reads.order()[w] == key);
                }
                if writes@.contains(key) {
                    let w = writes.order().index_of(key);
                    assert(writes.order()[w] == key);
                }
            }
        }
        let k = self.accessed_accounts.len();
        for i in 0..k
            invariant
                k == self.accessed_accounts.order().len(),
                other@.tx_index < self@.tx_index,
                forall|key: StorageKey| !self@.slot_conflict(other@, key),
                forall|j: int|
                    0 <= j < i ==> !other@.accounts.contains(
                        #[trigger] self.accessed_accounts.order()[j],
                    ),
        {
            let address = self.accessed_accounts.at(i);
            if other.accessed_accounts.contains(&address) {
                return Some(Conflict::AccountAccess(address));
            }
        }
        proof {
            assert forall|a: Address| self@.accounts.contains(a) implies !other@.accounts.contains(
                a,
            ) by {
                let w = self.accessed_accounts.order().index_of(a);
                assert(self.accessed_accounts.order()[w] == a);
            }
        }
        None
    }

    pub fn version(&self) -> (r: u64)
        ensures
            r == self@.version,
    {
        self.version
    }

    pub fn tx_index(&self) -> (r: usize)
        ensures
            r == self@.tx_index,
    {
        self.tx_index
    }

    pub fn operations(&self) -> (r: &Vec<Operation>)
        ensures
            r@ == self@.operations,
    {
        &self.operations
    }

    /// How many slot reads were recorded.
    pub fn read_count(&self) -> (r: usize)
        ensures
            r == self@.read_count,
    {
        self.read_count
    }

    /// How many slot writes were recorded.
    pub fn write_count(&self) -> (r: usize)
        ensures
            r == self@.write_count,
    {
        self.write_count
    }

    /// How many account accesses were recorded.
    pub fn account_access_count(&self) -> (r: usize)
        ensures
            r == self@.account_access_count,
    {
        self.account_access_count
    }

    /// Whether a recorded operation touched the slot.
    pub fn accessed_slot(&self, address: Address, slot: U256) -> (r: bool)
        ensures
            r == self@.slots.contains((address, slot)),
    {
        self.accessed_slots.contains(&(address, slot))
    }

    /// Whether a recorded operation accessed the account as a whole.
    pub fn accessed_account(&self, address: Address) -> (r: bool)
        ensures
            r == self@.accounts.contains(address),
    {
        self.accessed_accounts.contains(&address)
    }

    /// Checks that no slot access was recorded twice, and then that no slot was
    /// read after it had been written.
    pub fn validate(&self) -> (r: Result<(), OperationLogError>)
        ensures
            r == self@.validity(),
    {
        let ghost order = self.operation_order@;
        let n = self.operation_order.len();
        for j in 0..n
            invariant
                order == self.operation_order@,
                order == self@.order,
                n == order.len(),
                forall|a: int, b: int| 0 <= a < b < j ==> order[a] != order[b],
        {
            for i in 0..j
                invariant
                    order == self.operation_order@,
                    order == self@.order,
                    n == order.len(),
                    j < n,
                    forall|a: int| 0 <= a < i ==> order[a] != order[j as int],
            {
                if self.operation_order[i] == self.operation_order[j] {
                    assert(order[i as int] == order[j as int]);
                    assert(!order.no_duplicates());
                    return Err(OperationLogError::DuplicateOperation);
                }
            }
        }
        assert(order.no_duplicates());
        for j in 0..n
            invariant
                order == self.operation_order@,
                order == self@.order,
                n == order.len(),
                order.no_duplicates(),
                forall|a: int, b: int|
                    0 <= a < b < j ==> !is_write_then_read(#[trigger] order[a], #[trigger] order[b]),
        {
            for i in 0..j
                invariant
                    order == self.operation_order@,
                    order == self@.order,
                    n == order.len(),
                    j < n,
                    order.no_duplicates(),
                    forall|a: int|
                        0 <= a < i ==> !is_write_then_read(#[trigger] order[a], order[j as int]),
            {
                if let OperationType::Write(a, s) = self.operation_order[i] {
                    if let OperationType::Read(b, t) = self.operation_order[j] {
                        if a == b && s == t {
                            assert(is_write_then_read(order[i as int], order[j as int]));
                            return Err(OperationLogError::InvalidOrder);
                        }
                    }
                }
            }
        }
        Ok(())
    }

    /// Closes the log, if it is still open and valid.
    pub fn finalize(&mut self) -> (r: Result<(), OperationLogError>)
        requires
            old(self).wf(),
        ensures
            final(self).wf(),
            r == (if old(self)@.finalized {
                Err::<(), OperationLogError>(OperationLogError::LogFinalized)
            } else {
                old(self)@.validity()
            }),
            r is Ok ==> final(self)@ == (LogView { finalized: true, ..old(self)@ }),
            r is Err ==> *final(self) == *old(self),
            final(self).context() == old(self).context(),
    {
        if self.finalized {
            return Err(OperationLogError::LogFinalized);
        }
        match self.validate() {
            Ok(()) => {},
            Err(e) => {
                return Err(e);
            },
        }
        self.finalized = true;
        assert(self@ =~= LogView { finalized: true, ..old(self)@ });
        Ok(())
    }

    /// Sets the version that the log belongs to, as long as it is open.
    pub fn set_version(&mut self, version: u64) -> (r: Result<(), OperationLogError>)
        requires
            old(self).wf(),
        ensures
            final(self).wf(),
            r == (if old(self)@.finalized {
                Err::<(), OperationLogError>(OperationLogError::LogFinalized)
            } else {
                Ok(())
            }),
            r is Ok ==> final(self)@ == (LogView { version, ..old(self)@ }),
            r is Err ==> *final(self) == *old(self),
            final(self).context() == old(self).context(),
    {
        if self.finalized {
            return Err(OperationLogError::LogFinalized);
        }
        self.version = version;
        assert(self@ =~= LogView { version, ..old(self)@ });
        Ok(())
    }
}

/// What two transactions got in each other's way about.
#[derive(Clone, Copy, Debug, PartialEq, Eq, Structural)]
pub enum Conflict {
    StorageSlot(Address, U256),
    AccountAccess(Address),
}

/// A thread panicked while it held the lock of a shared log for writing.
#[derive(Clone, Copy, Debug, PartialEq, Eq, Structural)]
pub struct LockPoisoned;

/// A log that threads share: what their lock guards. Once a thread panicked while
/// it was writing, the lock is poisoned and the log is handed out no more.
#[derive(Debug)]
pub struct SharedOperationLog<'a, BLOCK, TX> {
    inner: OperationLog<'a, BLOCK, TX>,
    poisoned: bool,
}

impl<'a, BLOCK, TX> SharedOperationLog<'a, BLOCK, TX> {
    pub closed spec fn wf(self) -> bool {
        self.inner.wf()
    }

    /// The log that is shared.
    pub closed spec fn log(self) -> OperationLog<'a, BLOCK, TX> {
        self.inner
    }

    pub closed spec fn is_poisoned(self) -> bool {
        self.poisoned
    }

    /// The log, as far as it is handed out.
    pub open spec fn readable(self) -> Option<LogView> {
        if self.is_poisoned() {
            None
        } else {
            Some(self.log()@)
        }
    }

    /// An empty log for the transaction at index 0.
    pub fn new(context: &'a Context<BLOCK, TX>) -> (r: Self)
        ensures
            r.wf(),
            !r.is_poisoned(),
            r.log()@ == empty_log(0, 0),
            r.log().context() == *context,
    {
        SharedOperationLog { inner: OperationLog::new(0, 64, context), poisoned: false }
    }

    /// An empty log for a transaction that runs on a given version.
    pub fn for_transaction(
        tx_index: usize,
        version: u64,
        context: &'a Context<BLOCK, TX>,
    ) -> (r: Self)
        ensures
            r.wf(),
            !r.is_poisoned(),
            r.log()@ == empty_log(tx_index, version),
            r.log().context() == *context,
    {
        let mut inner = OperationLog::new(tx_index, 64, context);
        let _ = inner.set_version(version);
        assert(inner@ =~= empty_log(tx_index, version));
        SharedOperationLog { inner, poisoned: false }
    }

    /// Notes that a thread panicked while it held the lock for writing.
    pub fn poison(&mut self)
        requires
            old(self).wf(),
        ensures
            final(self).wf(),
            final(self).is_poisoned(),
            final(self).log() == old(self).log(),
    {
        self.poisoned = true;
    }

    /// Notes a read of a slot. A poisoned log counts as finalized.
    pub fn record_read(&mut self, address: Address, slot: U256) -> (r: Result<
        (),
        OperationLogError,
    >)
        requires
            old(self).wf(),
        ensures
            final(self).wf(),
            final(self).is_poisoned() == old(self).is_poisoned(),
            match r {
                Ok(()) => !old(self).is_poisoned() && final(self).log()@ == (LogView {
                    reads: old(self).log()@.reads.push((address, slot)),
                    ..old(self).log()@
                }),
                Err(e) => old(self).is_poisoned() && e == OperationLogError::LogFinalized
                    && *final(self) == *old(self),
            },
            final(self).log().context() == old(self).log().context(),
    {
        if self.poisoned {
            return Err(OperationLogError::LogFinalized);
        }
        self.inner.record_read(address, slot);
        Ok(())
    }

    /// Notes a write of a slot. A poisoned log counts as finalized.
    pub fn record_write(&mut self, address: Address, slot: U256, value: U256) -> (r: Result<
        (),
        OperationLogError,
    >)
        requires
            old(self).wf(),
        ensures
            final(self).wf(),
            final(self).is_poisoned() == old(self).is_poisoned(),
            match r {
                Ok(()) => !old(self).is_poisoned() && final(self).log()@ == (LogView {
                    writes: old(self).log()@.writes.push((address, slot, value)),
                    ..old(self).log()@
                }),
                Err(e) => old(self).is_poisoned() && e == OperationLogError::LogFinalized
                    && *final(self) == *old(self),
            },
            final(self).log().context() == old(self).log().context(),
    {
        if self.poisoned {
            return Err(OperationLogError::LogFinalized);
        }
        self.inner.record_write(address, slot, value);
        Ok(())
    }

    /// Records an access to an account. A poisoned log counts as finalized.
    pub fn record_account_access(&mut self, address: Address) -> (r: Result<(), OperationLogError>)
        requires
            old(self).wf(),
        ensures
            final(self).wf(),
            final(self).is_poisoned() == old(self).is_poisoned(),
            match r {
                Ok(()) => !old(self).is_poisoned() && final(self).log()@
                    == old(self).log()@.with_account_access(address),
                Err(e) => old(self).is_poisoned() && e == OperationLogError::LogFinalized
                    && *final(self) == *old(self),
            },
            final(self).log().context() == old(self).log().context(),
    {
        if self.poisoned {
            return Err(OperationLogError::LogFinalized);
        }
        self.inner.record_account_access(address);
        Ok(())
    }

    /// The log, to look at.
    pub fn read(&self) -> (r: Result<&OperationLog<'a, BLOCK, TX>, LockPoisoned>)
        ensures
            match r {
                Ok(log) => !self.is_poisoned() && *log == self.log(),
                Err(_) => self.is_poisoned(),
            },
            self.wf() ==> (r matches Ok(log) ==> log.wf()),
    {
        if self.poisoned {
            Err(LockPoisoned)
        } else {
            Ok(&self.inner)
        }
    }

    /// The log, to change.
    pub fn write(&mut self) -> (r: Result<&mut OperationLog<'a, BLOCK, TX>, LockPoisoned>)
        ensures
            match r {
                Ok(log) => !old(self).is_poisoned() && *log == old(self).log() && *final(log)
                    == final(self).log() && !final(self).is_poisoned() && (final(log).wf()
                    ==> final(self).wf()),
                Err(_) => old(self).is_poisoned() && *final(self) == *old(self),
            },
            old(self).wf() ==> (r matches Ok(log) ==> log.wf()),
    {
        if self.poisoned {
            Err(LockPoisoned)
        } else {
            Ok(&mut self.inner)
        }
    }

    pub fn tx_index(&self) -> (r: usize)
        requires
            !self.is_poisoned(),
        ensures
            r == self.log()@.tx_index,
    {
        self.inner.tx_index()
    }

    /// Empties the log for another run of its transaction on a given version. The
    /// block and the transaction stay.
    pub fn restart(&mut self, tx_index: usize, version: u64) -> (r: Result<(), LockPoisoned>)
        requires
            old(self).wf(),
        ensures
            final(self).wf(),
            final(self).is_poisoned() == old(self).is_poisoned(),
            match r {
                Ok(()) => !old(self).is_poisoned() && final(self).log()@ == empty_log(
                    tx_index,
                    version,
                ),
                Err(_) => old(self).is_poisoned() && *final(self) == *old(self),
            },
            final(self).log().context() == old(self).log().context(),
    {
        if self.poisoned {
            return Err(LockPoisoned);
        }
        let mut inner = OperationLog::new(tx_index, 64, self.inner.context);
        let _ = inner.set_version(version);
        assert(inner@ =~= empty_log(tx_index, version));
        self.inner = inner;
        Ok(())
    }
}

/// In a valid log a slot that was read and written was read first, and each once.
pub proof fn law_valid_log_reads_before_it_writes(log: LogView, key: StorageKey)
    requires
        log.validity() is Ok,
    ensures
        forall|i: int, j: int|
            0 <= i < log.order.len() && 0 <= j < log.order.len() && #[trigger] log.order[i]
                == OperationType::Read(key.0, key.1) && #[trigger] log.order[j]
                == OperationType::Write(key.0, key.1) ==> i < j,
        log.order.no_duplicates(),
{
    assert forall|i: int, j: int|
        0 <= i < log.order.len() && 0 <= j < log.order.len() && #[trigger] log.order[i]
            == OperationType::Read(key.0, key.1) && #[trigger] log.order[j]
            == OperationType::Write(key.0, key.1) implies i < j by {
        if j < i {
            assert(is_write_then_read(log.order[j], log.order[i]));
        }
    }
}

/// A log that does not validate for a repeated operation repeats a write: a
/// repeated read is never recorded.
pub proof fn law_only_writes_repeat(log: LogView)
    requires
        log.consistent(),
        log.validity() == Err::<(), OperationLogError>(OperationLogError::DuplicateOperation),
    ensures
        exists|i: int, j: int|
            0 <= i < j < log.order.len() && #[trigger] log.order[i] == #[trigger] log.order[j]
                && log.order[i] is Write,
{
    let (a, b) = choose|a: int, b: int|
        0 <= a < log.order.len() && 0 <= b < log.order.len() && a != b && #[trigger] log.order[a]
            == #[trigger] log.order[b];
    let (i, j) = if a < b {
        (a, b)
    } else {
        (b, a)
    };
    assert(log.order[i] == log.order[j]);
    assert(log.order[i] is Write);
}

/// A slot shows up in the overlaps exactly when it was noted both as read and as
/// written.
pub proof fn law_overlaps_are_read_and_written(
    reads: Seq<(Address, U256)>,
    writes: Seq<(Address, U256, U256)>,
    key: StorageKey,
)
    ensures
        overlaps(reads, writes).contains(key) <==> reads.contains(key) && wrote(writes, key),
    decreases reads.len(),
{
    if reads.len() > 0 {
        let earlier = reads.drop_last();
        let last = reads.last();
        law_overlaps_are_read_and_written(earlier, writes, key);
        lemma_writes_to_counts(writes, last);
        let head = overlaps(earlier, writes);
        let tail = Seq::new(writes_to(writes, last), |i: int| last);
        assert(overlaps(reads, writes) == head + tail);
        assert(reads =~= earlier.push(last));
        if reads.contains(key) && wrote(writes, key) {
            if key == last {
                assert((head + tail)[head.len() as int] == key);
            } else {
                let w = reads.index_of(key);
                assert(earlier[w] == key);
                let v = head.index_of(key);
                assert((head + tail)[v] == key);
            }
        }
        if overlaps(reads, writes).contains(key) {
            let w = (head + tail).index_of(key);
            if w < head.len() {
                assert(head[w] == key);
                let v = earlier.index_of(key);
                assert(reads[v] == key);
            } else {
                assert(tail[w - head.len()] == key);
                assert(reads[reads.len() - 1] == key);
            }
        }
    }
}

proof fn lemma_writes_to_counts(writes: Seq<(Address, U256, U256)>, key: StorageKey)
    ensures
        writes_to(writes, key) > 0 <==> wrote(writes, key),
    decreases writes.len(),
{
    if writes.len() > 0 {
        lemma_writes_to_counts(writes.drop_last(), key);
        lemma_wrote_push(writes.drop_last(), writes.last(), key);
        assert(writes =~= writes.drop_last().push(writes.last()));
    }
}

/// In a well-formed log the slots, the accounts, the order and the counts all tell of
/// the same operations.
pub proof fn law_wf_is_consistent<'a, BLOCK, TX>(log: OperationLog<'a, BLOCK, TX>)
    requires
        log.wf(),
    ensures
        log@.consistent(),
{
}

/// What a well-formed shared log holds is well-formed.
pub proof fn law_shared_log_is_consistent<'a, BLOCK, TX>(log: SharedOperationLog<'a, BLOCK, TX>)
    requires
        log.wf(),
    ensures
        log.log().wf(),
        log.log()@.consistent(),
{
}

} // verus!
