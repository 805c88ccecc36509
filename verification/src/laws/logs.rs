//! What a log says of the operations that were recorded in it.
use crate::parallel::operation_logs::{
    address_of, count_where, empty_log, overlaps, slot_accesses, touches_account, touches_slot,
    writes_to, LogView, Operation, OperationLogError, OperationType,
};
use crate::primitives::{Address, StorageKey, U256};
use vstd::prelude::*;

verus! {

/// Whether an operation of any kind is on an account.
pub open spec fn acts_on(op: Operation, account: Address) -> bool {
    ||| op matches Operation::Read { address, .. } && address == account
    ||| op matches Operation::Write { address, .. } && address == account
    ||| op matches Operation::AccountAccess { address } && address == account
    ||| op matches Operation::CodeAccess { address } && address == account
}

/// Whether an operation reads a slot.
pub open spec fn reads_slot(op: Operation, account: Address, at: U256) -> bool {
    op == (Operation::Read { address: account, slot: at })
}

/// Whether an operation writes a slot.
pub open spec fn writes_slot(op: Operation, account: Address, at: U256) -> bool {
    op matches Operation::Write { address, slot, .. } && address == account && slot == at
}

/// The account of an operation is the one that stands in it, whatever its kind.
pub proof fn law_the_account_of_an_operation(op: Operation, account: Address)
    ensures
        address_of(op) == account <==> acts_on(op, account),
{
}

/// An operation touches the slot that it reads or writes, and an account if it is an access
/// to the account or to its code.
pub proof fn law_what_an_operation_touches(op: Operation, account: Address, at: U256)
    ensures
        touches_slot(op, (account, at)) <==> reads_slot(op, account, at) || writes_slot(
            op,
            account,
            at,
        ),
        touches_account(op, account) <==> op == (Operation::AccountAccess { address: account })
            || op == (Operation::CodeAccess { address: account }),
{
}

/// A log validates exactly when no access stands twice in its order and no read of a slot
/// stands behind a write of the same slot of the same account. A repeated access is told
/// first.
pub proof fn law_which_logs_are_valid(log: LogView)
    ensures
        log.validity() is Ok <==> (forall|i: int, j: int|
            0 <= i < j < log.order.len() ==> #[trigger] log.order[i] != #[trigger] log.order[j])
            && (forall|i: int, j: int|
            0 <= i < j < log.order.len() ==> !(#[trigger] log.order[i] matches OperationType::Write(
                account,
                at,
            ) && #[trigger] log.order[j] == OperationType::Read(account, at))),
        log.validity() == Err::<(), OperationLogError>(OperationLogError::DuplicateOperation)
            <==> exists|i: int, j: int|
            0 <= i < j < log.order.len() && #[trigger] log.order[i] == #[trigger] log.order[j],
        log.validity() is Ok || log.validity() == Err::<(), OperationLogError>(
            OperationLogError::DuplicateOperation,
        ) || log.validity() == Err::<(), OperationLogError>(OperationLogError::InvalidOrder),
{
    if log.order.no_duplicates() {
        assert forall|i: int, j: int| 0 <= i < j < log.order.len() implies #[trigger] log.order[i]
            != #[trigger] log.order[j] by {}
        if log.validity() is Err {
            let (i, j) = choose|i: int, j: int|
                0 <= i < j < log.order.len()
                    && crate::parallel::operation_logs::is_write_then_read(
                    #[trigger] log.order[i],
                    #[trigger] log.order[j],
                );
            if let OperationType::Write(account, at) = log.order[i] {
                assert(log.order[j] == OperationType::Read(account, at));
            }
        } else {
            assert forall|i: int, j: int| 0 <= i < j < log.order.len() implies !(
            #[trigger] log.order[i] matches OperationType::Write(account, at)
                && #[trigger] log.order[j] == OperationType::Read(account, at)) by {
                assert(!crate::parallel::operation_logs::is_write_then_read(
                    log.order[i],
                    log.order[j],
                ));
            }
        }
    } else {
        let (a, b) = choose|a: int, b: int|
            0 <= a < log.order.len() && 0 <= b < log.order.len() && a != b
                && #[trigger] log.order[a] == #[trigger] log.order[b];
        if a < b {
            assert(log.order[a] == log.order[b]);
        } else {
            assert(log.order[b] == log.order[a]);
        }
    }
}

/// Where the slot accesses of the first operations end in the order.
proof fn lemma_order_position(operations: Seq<Operation>, i: int)
    requires
        0 <= i < operations.len(),
    ensures
        slot_accesses(operations.take(i)).len() <= slot_accesses(operations).len(),
        operations[i] matches Operation::Read { address, slot } ==> slot_accesses(
            operations.take(i),
        ).len() < slot_accesses(operations).len() && slot_accesses(operations)[slot_accesses(
            operations.take(i),
        ).len() as int] == OperationType::Read(address, slot),
        operations[i] matches Operation::Write { address, slot, .. } ==> slot_accesses(
            operations.take(i),
        ).len() < slot_accesses(operations).len() && slot_accesses(operations)[slot_accesses(
            operations.take(i),
        ).len() as int] == OperationType::Write(address, slot),
    decreases operations.len(),
{
    let rest = operations.drop_last();
    if i < rest.len() {
        lemma_order_position(rest, i);
        assert(rest.take(i) =~= operations.take(i));
    } else {
        assert(operations.take(i) =~= rest);
    }
}

/// From which operation an entry of the order comes.
proof fn lemma_order_source(operations: Seq<Operation>, k: int) -> (i: int)
    requires
        0 <= k < slot_accesses(operations).len(),
    ensures
        0 <= i < operations.len(),
        slot_accesses(operations.take(i)).len() == k,
        match slot_accesses(operations)[k] {
            OperationType::Read(a, s) => reads_slot(operations[i], a, s),
            OperationType::Write(a, s) => writes_slot(operations[i], a, s),
        },
    decreases operations.len(),
{
    let rest = operations.drop_last();
    if k < slot_accesses(rest).len() {
        let i = lemma_order_source(rest, k);
        assert(rest.take(i) =~= operations.take(i));
        i
    } else {
        let i = rest.len() as int;
        assert(operations.take(i) =~= rest);
        i
    }
}

proof fn lemma_positions_grow(operations: Seq<Operation>, i: int, j: int)
    requires
        0 <= i <= j <= operations.len(),
    ensures
        slot_accesses(operations.take(i)).len() <= slot_accesses(operations.take(j)).len(),
        i < j && (operations[i] is Read || operations[i] is Write) ==> slot_accesses(
            operations.take(i),
        ).len() < slot_accesses(operations.take(j)).len(),
    decreases j - i,
{
    if i < j {
        lemma_positions_grow(operations, i + 1, j);
        assert(operations.take(i + 1).drop_last() =~= operations.take(i));
        assert(operations.take(i + 1).last() == operations[i]);
    }
}

/// Whether two operations repeat the same access to a slot.
pub open spec fn repeats(a: Operation, b: Operation) -> bool {
    exists|account: Address, at: U256|
        #![trigger reads_slot(a, account, at)]
        #![trigger writes_slot(a, account, at)]
        (reads_slot(a, account, at) && reads_slot(b, account, at)) || (writes_slot(
            a,
            account,
            at,
        ) && writes_slot(b, account, at))
}

/// Whether the first operation writes a slot that the second one reads.
pub open spec fn read_behind_write(a: Operation, b: Operation) -> bool {
    exists|account: Address, at: U256| #[trigger]
        writes_slot(a, account, at) && reads_slot(b, account, at)
}

/// A log validates exactly when none of its operations repeats the access of an earlier one
/// to a slot and none reads a slot that an earlier one wrote; what validation tells first is
/// a repeated access.
pub proof fn law_valid_by_its_operations(log: LogView)
    requires
        log.consistent(),
    ensures
        log.validity() is Ok <==> forall|i: int, j: int|
            0 <= i < j < log.operations.len() ==> !repeats(
                #[trigger] log.operations[i],
                #[trigger] log.operations[j],
            ) && !read_behind_write(log.operations[i], log.operations[j]),
        log.validity() == Err::<(), OperationLogError>(OperationLogError::DuplicateOperation)
            <==> exists|i: int, j: int|
            0 <= i < j < log.operations.len() && repeats(
                #[trigger] log.operations[i],
                #[trigger] log.operations[j],
            ),
{
    let ops = log.operations;
    law_which_logs_are_valid(log);
    assert forall|i: int, j: int| 0 <= i < j < ops.len() && (repeats(
        #[trigger] ops[i],
        #[trigger] ops[j],
    ) || read_behind_write(ops[i], ops[j])) implies log.validity() is Err && (repeats(
        ops[i],
        ops[j],
    ) ==> log.validity() == Err::<(), OperationLogError>(OperationLogError::DuplicateOperation)) by {
        lemma_order_position(ops, i);
        lemma_order_position(ops, j);
        lemma_positions_grow(ops, i, j);
        let p = slot_accesses(ops.take(i)).len() as int;
        let q = slot_accesses(ops.take(j)).len() as int;
        assert(log.order[p] == log.order[p]);
        assert(log.order[q] == log.order[q]);
    }
    if log.validity() is Err {
        if log.validity() == Err::<(), OperationLogError>(OperationLogError::DuplicateOperation) {
            let (p, q) = choose|p: int, q: int|
                0 <= p < q < log.order.len() && #[trigger] log.order[p] == #[trigger] log.order[q];
            let i = lemma_order_source(ops, p);
            let j = lemma_order_source(ops, q);
            if j <= i {
                lemma_positions_grow(ops, j, i);
            }
            match log.order[p] {
                OperationType::Read(a, s) => {
                    assert(reads_slot(ops[i], a, s) && reads_slot(ops[j], a, s));
                },
                OperationType::Write(a, s) => {
                    assert(writes_slot(ops[i], a, s) && writes_slot(ops[j], a, s));
                },
            }
            assert(repeats(ops[i], ops[j]));
        } else {
            let (p, q) = choose|p: int, q: int|
                0 <= p < q < log.order.len() && (#[trigger] log.order[p] matches OperationType::Write(
                    a,
                    s,
                ) && #[trigger] log.order[q] == OperationType::Read(a, s));
            let i = lemma_order_source(ops, p);
            let j = lemma_order_source(ops, q);
            if j <= i {
                lemma_positions_grow(ops, j, i);
            }
            if let OperationType::Write(a, s) = log.order[p] {
                assert(writes_slot(ops[i], a, s) && reads_slot(ops[j], a, s));
            }
            assert(read_behind_write(ops[i], ops[j]));
        }
    }
}

/// The slots, the accounts and the counts of a log are those of its operations.
pub proof fn law_a_log_tells_of_its_operations(log: LogView, account: Address, at: U256)
    requires
        log.consistent(),
    ensures
        log.slots.contains((account, at)) <==> exists|i: int|
            0 <= i < log.operations.len() && (reads_slot(#[trigger] log.operations[i], account, at)
                || writes_slot(log.operations[i], account, at)),
        log.accounts.contains(account) <==> exists|i: int|
            0 <= i < log.operations.len() && (#[trigger] log.operations[i] == (
            Operation::AccountAccess { address: account }) || log.operations[i] == (
            Operation::CodeAccess { address: account })),
        log.read_count == log.operations.filter(|op: Operation| op is Read).len(),
        log.write_count == log.operations.filter(|op: Operation| op is Write).len(),
        log.account_access_count == log.operations.filter(
            |op: Operation| op is AccountAccess,
        ).len(),
        forall|i: int|
            0 <= i < log.operations.len() && reads_slot(#[trigger] log.operations[i], account, at)
                ==> log.reads.contains((account, at)),
        forall|i: int|
            0 <= i < log.operations.len() && writes_slot(#[trigger] log.operations[i], account, at)
                ==> exists|k: int|
                0 <= k < log.writes.len() && (#[trigger] log.writes[k]).0 == account
                    && log.writes[k].1 == at,
{
    let ops = log.operations;
    lemma_count_is_filter(ops, |op: Operation| op is Read);
    lemma_count_is_filter(ops, |op: Operation| op is Write);
    lemma_count_is_filter(ops, |op: Operation| op is AccountAccess);
    if log.slots.contains((account, at)) {
        let i = choose|i: int|
            0 <= i < ops.len() && #[trigger] touches_slot(ops[i], (account, at));
        assert(reads_slot(ops[i], account, at) || writes_slot(ops[i], account, at));
    }
    if exists|i: int|
        0 <= i < ops.len() && (reads_slot(#[trigger] ops[i], account, at) || writes_slot(
            ops[i],
            account,
            at,
        )) {
        let i = choose|i: int|
            0 <= i < ops.len() && (reads_slot(#[trigger] ops[i], account, at) || writes_slot(
                ops[i],
                account,
                at,
            ));
        assert(touches_slot(ops[i], (account, at)));
    }
    if log.accounts.contains(account) {
        let i = choose|i: int| 0 <= i < ops.len() && #[trigger] touches_account(ops[i], account);
        assert(ops[i] == ops[i]);
    }
    if exists|i: int|
        0 <= i < ops.len() && (#[trigger] ops[i] == (Operation::AccountAccess { address: account })
            || ops[i] == (Operation::CodeAccess { address: account })) {
        let i = choose|i: int|
            0 <= i < ops.len() && (#[trigger] ops[i] == (Operation::AccountAccess {
                address: account,
            }) || ops[i] == (Operation::CodeAccess { address: account }));
        assert(touches_account(ops[i], account));
    }
    assert forall|i: int| 0 <= i < ops.len() && reads_slot(#[trigger] ops[i], account, at) implies log.reads.contains(
    (account, at)) by {
        lemma_order_position(ops, i);
        let p = slot_accesses(ops.take(i)).len() as int;
        assert(log.order[p] == OperationType::Read(account, at));
    }
    assert forall|i: int| 0 <= i < ops.len() && writes_slot(#[trigger] ops[i], account, at) implies exists|
        k: int,
    |
        0 <= k < log.writes.len() && (#[trigger] log.writes[k]).0 == account && log.writes[k].1
            == at by {
        lemma_order_position(ops, i);
        let p = slot_accesses(ops.take(i)).len() as int;
        assert(log.order[p] == OperationType::Write(account, at));
        law_what_was_noted(log, log, account, at);
    }
}

proof fn lemma_count_is_filter(operations: Seq<Operation>, p: spec_fn(Operation) -> bool)
    ensures
        count_where(operations, p) == operations.filter(p).len(),
    decreases operations.len(),
{
    reveal(Seq::filter);
    if operations.len() > 0 {
        lemma_count_is_filter(operations.drop_last(), p);
    }
}

/// A slot counts as read if it stands among the reads that were noted, and as written if a
/// write to it does; two logs are in conflict about a slot if the other wrote it and this one
/// read or wrote it.
pub proof fn law_what_was_noted(log: LogView, other: LogView, account: Address, at: U256)
    ensures
        log.read_set().contains((account, at)) <==> exists|k: int|
            0 <= k < log.reads.len() && #[trigger] log.reads[k] == (account, at),
        log.write_set().contains((account, at)) <==> exists|k: int|
            0 <= k < log.writes.len() && (#[trigger] log.writes[k]).0 == account
                && log.writes[k].1 == at,
        log.slot_conflict(other, (account, at)) <==> ((exists|k: int|
            0 <= k < log.reads.len() && #[trigger] log.reads[k] == (account, at)) || (exists|k: int|
            0 <= k < log.writes.len() && (#[trigger] log.writes[k]).0 == account
                && log.writes[k].1 == at)) && (exists|k: int|
            0 <= k < other.writes.len() && (#[trigger] other.writes[k]).0 == account
                && other.writes[k].1 == at),
{
    lemma_wrote(log, account, at);
    lemma_wrote(other, account, at);
}

proof fn lemma_wrote(log: LogView, account: Address, at: U256)
    ensures
        log.write_set().contains((account, at)) <==> exists|k: int|
            0 <= k < log.writes.len() && (#[trigger] log.writes[k]).0 == account
                && log.writes[k].1 == at,
        crate::parallel::operation_logs::wrote(log.writes, (account, at)) <==> exists|k: int|
            0 <= k < log.writes.len() && (#[trigger] log.writes[k]).0 == account
                && log.writes[k].1 == at,
{
    if exists|k: int|
        0 <= k < log.writes.len() && (#[trigger] log.writes[k]).0 == account && log.writes[k].1
            == at {
        let k = choose|k: int|
            0 <= k < log.writes.len() && (#[trigger] log.writes[k]).0 == account && log.writes[k].1
                == at;
        assert(crate::parallel::operation_logs::slot_of_write(log.writes[k]) == (account, at));
    }
    if crate::parallel::operation_logs::wrote(log.writes, (account, at)) {
        let k = choose|k: int|
            0 <= k < log.writes.len() && crate::parallel::operation_logs::slot_of_write(
                #[trigger] log.writes[k],
            ) == (account, at);
        assert(log.writes[k].0 == account && log.writes[k].1 == at);
    }
}

/// A new log is empty, belongs to its transaction and is open.
pub proof fn law_a_new_log_is_empty(tx_index: usize, version: u64)
    ensures
        ({
            let log = empty_log(tx_index, version);
            &&& log.tx_index == tx_index
            &&& log.version == version
            &&& log.operations.len() == 0
            &&& log.order.len() == 0
            &&& log.reads.len() == 0
            &&& log.writes.len() == 0
            &&& log.read_count == 0 && log.write_count == 0 && log.account_access_count == 0
            &&& forall|key: StorageKey| !log.slots.contains(key)
            &&& forall|account: Address| !log.accounts.contains(account)
            &&& !log.finalized
        }),
{
}

/// A recorded slot access is the last operation and the last in the order, its slot is among
/// the slots, it is the last among the reads or the writes, and it is counted; all else is as
/// it was.
pub proof fn law_what_recording_a_slot_access_adds(
    log: LogView,
    account: Address,
    at: U256,
    value: U256,
    original_value: U256,
)
    ensures
        ({
            let after = log.with_read(account, at);
            &&& after.operations == log.operations + seq![
                Operation::Read { address: account, slot: at },
            ]
            &&& after.order == log.order + seq![OperationType::Read(account, at)]
            &&& after.reads == log.reads + seq![(account, at)]
            &&& after.writes == log.writes
            &&& forall|key: StorageKey|
                after.slots.contains(key) <==> log.slots.contains(key) || key == (account, at)
            &&& after.accounts == log.accounts
            &&& after.read_count == log.read_count + 1
            &&& after.write_count == log.write_count
            &&& after.account_access_count == log.account_access_count
            &&& after.version == log.version && after.tx_index == log.tx_index
            &&& after.finalized == log.finalized
        }),
        ({
            let after = log.with_write(account, at, value, original_value);
            &&& after.operations == log.operations + seq![
                Operation::Write { address: account, slot: at, value, original_value },
            ]
            &&& after.order == log.order + seq![OperationType::Write(account, at)]
            &&& after.writes == log.writes + seq![(account, at, value)]
            &&& after.reads == log.reads
            &&& forall|key: StorageKey|
                after.slots.contains(key) <==> log.slots.contains(key) || key == (account, at)
            &&& after.accounts == log.accounts
            &&& after.write_count == log.write_count + 1
            &&& after.read_count == log.read_count
            &&& after.account_access_count == log.account_access_count
            &&& after.version == log.version && after.tx_index == log.tx_index
            &&& after.finalized == log.finalized
        }),
{
    assert(log.with_read(account, at).operations =~= log.operations + seq![
        Operation::Read { address: account, slot: at },
    ]);
    assert(log.with_read(account, at).order =~= log.order + seq![OperationType::Read(account, at)]);
    assert(log.with_read(account, at).reads =~= log.reads + seq![(account, at)]);
    let after = log.with_write(account, at, value, original_value);
    assert(after.operations =~= log.operations + seq![
        Operation::Write { address: account, slot: at, value, original_value },
    ]);
    assert(after.order =~= log.order + seq![OperationType::Write(account, at)]);
    assert(after.writes =~= log.writes + seq![(account, at, value)]);
}

/// A recorded access to an account or to its code is the last operation, and the account is
/// among the accounts; only the access to the account itself is counted, and all else is as
/// it was.
pub proof fn law_what_recording_an_account_access_adds(log: LogView, account: Address)
    ensures
        log.with_account_access(account).operations == log.operations + seq![
            Operation::AccountAccess { address: account },
        ],
        log.with_code_access(account).operations == log.operations + seq![
            Operation::CodeAccess { address: account },
        ],
        log.with_account_access(account).account_access_count == log.account_access_count + 1,
        log.with_code_access(account).account_access_count == log.account_access_count,
        forall|after: LogView|
            after == log.with_account_access(account) || after == log.with_code_access(account) ==> {
                &&& forall|a: Address| #[trigger]
                    after.accounts.contains(a) <==> log.accounts.contains(a) || a == account
                &&& after.slots == log.slots && #[trigger] after.order == log.order
                &&& after.reads == log.reads && after.writes == log.writes
                &&& after.read_count == log.read_count && after.write_count == log.write_count
                &&& after.version == log.version && after.tx_index == log.tx_index
                &&& after.finalized == log.finalized
            },
{
    assert(log.with_account_access(account).operations =~= log.operations + seq![
        Operation::AccountAccess { address: account },
    ]);
    assert(log.with_code_access(account).operations =~= log.operations + seq![
        Operation::CodeAccess { address: account },
    ]);
}

/// The overlaps of a log name every read slot in turn, once for each write to the same slot
/// of the same account.
pub proof fn law_overlaps_pair_reads_with_writes(
    reads: Seq<(Address, U256)>,
    writes: Seq<(Address, U256, U256)>,
    account: Address,
    at: U256,
)
    ensures
        overlaps(Seq::empty(), writes).len() == 0,
        ({
            let all = overlaps(reads.push((account, at)), writes);
            let before = overlaps(reads, writes);
            let pairs = writes.filter(
                |write: (Address, U256, U256)| write.0 == account && write.1 == at,
            ).len();
            &&& all.len() == before.len() + pairs
            &&& all.take(before.len() as int) == before
            &&& forall|i: int| before.len() <= i < all.len() ==> #[trigger] all[i] == (account, at)
        }),
{
    let all = overlaps(reads.push((account, at)), writes);
    assert(reads.push((account, at)).drop_last() =~= reads);
    lemma_writes_to_is_filter(writes, account, at);
    assert(all.take(overlaps(reads, writes).len() as int) =~= overlaps(reads, writes));
}

proof fn lemma_writes_to_is_filter(
    writes: Seq<(Address, U256, U256)>,
    account: Address,
    at: U256,
)
    ensures
        writes_to(writes, (account, at)) == writes.filter(
            |write: (Address, U256, U256)| write.0 == account && write.1 == at,
        ).len(),
    decreases writes.len(),
{
    reveal(Seq::filter);
    if writes.len() > 0 {
        lemma_writes_to_is_filter(writes.drop_last(), account, at);
    }
}

} // verus!
