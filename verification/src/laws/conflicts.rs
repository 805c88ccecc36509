//! Which conflicts the detector tells of, given what the transactions did.
use crate::laws::logs::{reads_slot, writes_slot};
use crate::parallel::conflict_detector::{
    conflict_views, entries_of, filed, files, known, last_write, no_accesses, shares, ConflictType, ConflictView, DetectorView,
};
use crate::parallel::operation_logs::Operation;
use crate::primitives::{Address, StorageKey, U256};
use vstd::prelude::*;

verus! {

/// Whether an operation counts as a read of a slot: it reads it, or it is an access to the
/// account or to its code, which counts as a read of the slot zero.
pub open spec fn counts_as_read(op: Operation, account: Address, at: U256) -> bool {
    ||| reads_slot(op, account, at)
    ||| at == (U256 { hi: 0, lo: 0 }) && op == (Operation::AccountAccess { address: account })
    ||| at == (U256 { hi: 0, lo: 0 }) && op == (Operation::CodeAccess { address: account })
}

/// What a detector has on record for a slot.
pub open spec fn record_of(d: DetectorView, account: Address, at: U256) -> Seq<
    (usize, usize, bool),
> {
    if d.history.contains_key((account, at)) {
        d.history[(account, at)]
    } else {
        Seq::empty()
    }
}

/// Whether a position of a record holds a write by a transaction before `tx_idx`, with no such
/// write behind it.
pub open spec fn is_last_write_before(
    record: Seq<(usize, usize, bool)>,
    tx_idx: usize,
    p: int,
) -> bool {
    &&& 0 <= p < record.len()
    &&& record[p].2 && record[p].0 < tx_idx
    &&& forall|q: int| p < q < record.len() ==> !((#[trigger] record[q]).2 && record[q].0 < tx_idx)
}

proof fn lemma_filed(op: Operation, account: Address, at: U256)
    ensures
        filed(op) == ((account, at), false) <==> counts_as_read(op, account, at),
        filed(op) == ((account, at), true) <==> writes_slot(op, account, at),
        filed(op).0 == (account, at) <==> counts_as_read(op, account, at) || writes_slot(
            op,
            account,
            at,
        ),
{
}

/// After an analysis a transaction has read the slots that one of its operations counts as a
/// read of and written those that one writes; what was known of the other transactions, and
/// the answers given before, stay.
pub proof fn law_what_an_analysis_knows(
    d: DetectorView,
    tx_idx: usize,
    ops: Seq<Operation>,
    account: Address,
    at: U256,
)
    ensures
        d.analyzed(tx_idx, ops).reads.contains_key(tx_idx),
        d.analyzed(tx_idx, ops).writes.contains_key(tx_idx),
        d.analyzed(tx_idx, ops).reads[tx_idx].contains((account, at)) <==> exists|i: int|
            0 <= i < ops.len() && counts_as_read(#[trigger] ops[i], account, at),
        d.analyzed(tx_idx, ops).writes[tx_idx].contains((account, at)) <==> exists|i: int|
            0 <= i < ops.len() && writes_slot(#[trigger] ops[i], account, at),
        forall|t: usize|
            t != tx_idx ==> (#[trigger] d.analyzed(tx_idx, ops).reads.contains_key(t)
                <==> d.reads.contains_key(t)),
        forall|t: usize|
            t != tx_idx ==> (#[trigger] d.analyzed(tx_idx, ops).writes.contains_key(t)
                <==> d.writes.contains_key(t)),
        forall|t: usize|
            t != tx_idx && d.reads.contains_key(t) ==> #[trigger] d.analyzed(tx_idx, ops).reads[t]
                == d.reads[t],
        forall|t: usize|
            t != tx_idx && d.writes.contains_key(t) ==> #[trigger] d.analyzed(tx_idx, ops).writes[t]
                == d.writes[t],
        d.analyzed(tx_idx, ops).cache == d.cache,
{
    assert forall|i: int| 0 <= i < ops.len() implies (filed(#[trigger] ops[i]) == (
        (account, at),
        false,
    ) <==> counts_as_read(ops[i], account, at)) && (filed(ops[i]) == ((account, at), true)
        <==> writes_slot(ops[i], account, at)) by {
        lemma_filed(ops[i], account, at);
    }
}

/// An analysis appends to the record of a slot one entry for each operation on it, in their
/// order, with the transaction, the position of the operation and whether it writes.
pub proof fn law_what_an_analysis_puts_on_record(
    d: DetectorView,
    tx_idx: usize,
    ops: Seq<Operation>,
    account: Address,
    at: U256,
)
    requires
        ops.len() <= usize::MAX,
    ensures
        ({
            let before = record_of(d, account, at);
            let after = record_of(d.analyzed(tx_idx, ops), account, at);
            &&& before.len() <= after.len()
            &&& after.take(before.len() as int) == before
            &&& forall|j: int|
                before.len() <= j < after.len() ==> {
                    &&& (#[trigger] after[j]).0 == tx_idx
                    &&& after[j].1 < ops.len()
                    &&& after[j].2 ==> writes_slot(ops[after[j].1 as int], account, at)
                    &&& !after[j].2 ==> counts_as_read(ops[after[j].1 as int], account, at)
                }
            &&& forall|j: int, k: int|
                before.len() <= j < k < after.len() ==> (#[trigger] after[j]).1 < (
                #[trigger] after[k]).1
            &&& forall|i: int|
                0 <= i < ops.len() && (counts_as_read(#[trigger] ops[i], account, at)
                    || writes_slot(ops[i], account, at)) ==> exists|j: int|
                    before.len() <= j < after.len() && (#[trigger] after[j]).1 == i
        }),
{
    let key: StorageKey = (account, at);
    let before = record_of(d, account, at);
    let after = record_of(d.analyzed(tx_idx, ops), account, at);
    let entries = entries_of(tx_idx, ops, key);
    lemma_entries(tx_idx, ops, account, at);
    if d.analyzed(tx_idx, ops).history.contains_key(key) {
        assert(after == known(d.history, key) + entries);
    } else {
        assert forall|i: int| 0 <= i < ops.len() implies !counts_as_read(
            #[trigger] ops[i],
            account,
            at,
        ) && !writes_slot(ops[i], account, at) by {
            lemma_filed(ops[i], account, at);
            if filed(ops[i]) == (key, true) {
                assert(files(ops, key, true));
            }
            if filed(ops[i]) == (key, false) {
                assert(files(ops, key, false));
            }
        }
        if entries.len() > 0 {
            assert(entries[0].1 < ops.len());
        }
    }
    assert(after =~= before + entries);
    assert(after.take(before.len() as int) =~= before);
    assert forall|i: int|
        0 <= i < ops.len() && (counts_as_read(#[trigger] ops[i], account, at) || writes_slot(
            ops[i],
            account,
            at,
        )) implies exists|j: int|
        before.len() <= j < after.len() && (#[trigger] after[j]).1 == i by {
        let j = choose|j: int| 0 <= j < entries.len() && (#[trigger] entries[j]).1 == i;
        assert(after[before.len() + j].1 == i);
    }
    assert forall|j: int| before.len() <= j < after.len() implies #[trigger] after[j]
        == entries[j - before.len()] by {}
}

proof fn lemma_entries(tx_idx: usize, ops: Seq<Operation>, account: Address, at: U256)
    requires
        ops.len() <= usize::MAX,
    ensures
        ({
            let entries = entries_of(tx_idx, ops, (account, at));
            &&& forall|j: int|
                0 <= j < entries.len() ==> {
                    &&& (#[trigger] entries[j]).0 == tx_idx
                    &&& entries[j].1 < ops.len()
                    &&& entries[j].2 ==> writes_slot(ops[entries[j].1 as int], account, at)
                    &&& !entries[j].2 ==> counts_as_read(ops[entries[j].1 as int], account, at)
                }
            &&& forall|j: int, k: int|
                0 <= j < k < entries.len() ==> (#[trigger] entries[j]).1 < (#[trigger] entries[k]).1
            &&& forall|i: int|
                0 <= i < ops.len() && (counts_as_read(#[trigger] ops[i], account, at)
                    || writes_slot(ops[i], account, at)) ==> exists|j: int|
                    0 <= j < entries.len() && (#[trigger] entries[j]).1 == i
        }),
    decreases ops.len(),
{
    if ops.len() > 0 {
        let rest = ops.drop_last();
        lemma_entries(tx_idx, rest, account, at);
        lemma_filed(ops.last(), account, at);
        let earlier = entries_of(tx_idx, rest, (account, at));
        let entries = entries_of(tx_idx, ops, (account, at));
        assert forall|j: int| 0 <= j < earlier.len() implies #[trigger] entries[j] == earlier[j] by {}
        assert forall|i: int| 0 <= i < rest.len() implies #[trigger] ops[i] == rest[i] by {}
        assert forall|i: int|
            0 <= i < ops.len() && (counts_as_read(#[trigger] ops[i], account, at) || writes_slot(
                ops[i],
                account,
                at,
            )) implies exists|j: int| 0 <= j < entries.len() && (#[trigger] entries[j]).1 == i by {
            if i < rest.len() {
                assert(ops[i] == rest[i]);
                let j = choose|j: int| 0 <= j < earlier.len() && (#[trigger] earlier[j]).1 == i;
                assert(entries[j].1 == i);
            } else {
                assert(entries[entries.len() - 1].1 == i);
            }
        }
    }
}

proof fn lemma_last_write_position(record: Seq<(usize, usize, bool)>, tx_idx: usize)
    ensures
        last_write(record, tx_idx) matches Some(w) ==> exists|p: int| #[trigger]
            is_last_write_before(record, tx_idx, p) && record[p].0 == w.0 && record[p].1 == w.1,
        forall|p: int| #[trigger]
            is_last_write_before(record, tx_idx, p) ==> last_write(record, tx_idx) == Some(
                (record[p].0, record[p].1),
            ),
    decreases record.len(),
{
    if record.len() > 0 {
        let rest = record.drop_last();
        lemma_last_write_position(rest, tx_idx);
        let last = record.len() - 1;
        if record.last().2 && record.last().0 < tx_idx {
            assert(is_last_write_before(record, tx_idx, last));
            assert forall|p: int| #[trigger] is_last_write_before(record, tx_idx, p) implies p
                == last by {
                if p < last {
                    assert(!(record[last].2 && record[last].0 < tx_idx));
                }
            }
        } else {
            assert forall|p: int| #[trigger]
                is_last_write_before(record, tx_idx, p) implies is_last_write_before(
                rest,
                tx_idx,
                p,
            ) && rest[p] == record[p] by {
                assert(p != last);
                assert forall|q: int| p < q < rest.len() implies !((#[trigger] rest[q]).2
                    && rest[q].0 < tx_idx) by {
                    assert(rest[q] == record[q]);
                }
            }
            if last_write(rest, tx_idx) is Some {
                let w = last_write(rest, tx_idx)->0;
                let p = choose|p: int| #[trigger]
                    is_last_write_before(rest, tx_idx, p) && rest[p].0 == w.0 && rest[p].1 == w.1;
                assert forall|q: int| p < q < record.len() implies !((#[trigger] record[q]).2
                    && record[q].0 < tx_idx) by {
                    if q < last {
                        assert(rest[q] == record[q]);
                    }
                }
                assert(is_last_write_before(record, tx_idx, p));
            }
        }
    }
}

/// An operation-level conflict names a slot that the transaction read and, of the record of
/// the slot, the last write by an earlier transaction; and there is one for every slot that it
/// read and that has such a write. None is told twice.
pub proof fn law_an_operation_conflict_names_the_last_write(
    d: DetectorView,
    tx_idx: usize,
    conflicts: Seq<ConflictView>,
)
    requires
        d.detected(tx_idx, conflicts),
    ensures
        forall|i: int|
            0 <= i < conflicts.len() ==> (#[trigger] conflicts[i] matches ConflictView::OperationLevel {
                tx_index,
                op_index,
                address,
                slot,
            } ==> {
                &&& slot is Some
                &&& d.reads.contains_key(tx_idx) && d.reads[tx_idx].contains((address, slot->0))
                &&& exists|p: int| #[trigger]
                    is_last_write_before(record_of(d, address, slot->0), tx_idx, p) && record_of(
                        d,
                        address,
                        slot->0,
                    )[p] == (tx_index, op_index, true)
            }),
        forall|address: Address, at: U256, p: int|
            d.reads.contains_key(tx_idx) && d.reads[tx_idx].contains((address, at))
                && #[trigger] is_last_write_before(record_of(d, address, at), tx_idx, p)
                ==> conflicts.contains(
                ConflictView::OperationLevel {
                    tx_index: record_of(d, address, at)[p].0,
                    op_index: record_of(d, address, at)[p].1,
                    address,
                    slot: Some(at),
                },
            ),
        forall|i: int, j: int|
            0 <= i < j < conflicts.len() ==> #[trigger] conflicts[i] != #[trigger] conflicts[j],
{
    assert forall|i: int| 0 <= i < conflicts.len() implies (
    #[trigger] conflicts[i] matches ConflictView::OperationLevel {
        tx_index,
        op_index,
        address,
        slot,
    } ==> {
        &&& slot is Some
        &&& d.reads.contains_key(tx_idx) && d.reads[tx_idx].contains((address, slot->0))
        &&& exists|p: int| #[trigger]
            is_last_write_before(record_of(d, address, slot->0), tx_idx, p) && record_of(
                d,
                address,
                slot->0,
            )[p] == (tx_index, op_index, true)
    }) by {
        assert(conflicts.contains(conflicts[i]));
        if let ConflictView::OperationLevel { tx_index, op_index, address, slot } = conflicts[i] {
            assert(d.is_operation_conflict(tx_idx, conflicts[i]));
            lemma_last_write_position(record_of(d, address, slot->0), tx_idx);
        }
    }
    assert forall|address: Address, at: U256, p: int|
        d.reads.contains_key(tx_idx) && d.reads[tx_idx].contains((address, at))
            && #[trigger] is_last_write_before(
            record_of(d, address, at),
            tx_idx,
            p,
        ) implies conflicts.contains(
        ConflictView::OperationLevel {
            tx_index: record_of(d, address, at)[p].0,
            op_index: record_of(d, address, at)[p].1,
            address,
            slot: Some(at),
        },
    ) by {
        lemma_last_write_position(record_of(d, address, at), tx_idx);
        assert(d.is_operation_conflict(
            tx_idx,
            ConflictView::OperationLevel {
                tx_index: record_of(d, address, at)[p].0,
                op_index: record_of(d, address, at)[p].1,
                address,
                slot: Some(at),
            },
        ));
    }
}

/// Whether two transactions are in conflict about an account: the other wrote a slot of it
/// that the first read or wrote.
pub open spec fn in_conflict_about(
    d: DetectorView,
    tx_idx: usize,
    other: usize,
    account: Address,
) -> bool {
    exists|at: U256|
        #![trigger d.writes[other].contains((account, at))]
        d.writes[other].contains((account, at)) && (d.reads[tx_idx].contains((account, at))
            || d.writes[tx_idx].contains((account, at)))
}

/// A transaction-level conflict is with an earlier transaction, and names exactly the accounts
/// of which the earlier one wrote a slot that this one read or wrote; there is one conflict for
/// each earlier transaction with such an account, and these stand ahead of the others.
pub proof fn law_a_transaction_conflict_names_the_shared_accounts(
    d: DetectorView,
    tx_idx: usize,
    conflicts: Seq<ConflictView>,
)
    requires
        d.detected(tx_idx, conflicts),
    ensures
        forall|i: int|
            0 <= i < conflicts.len() ==> (
            #[trigger] conflicts[i] matches ConflictView::TransactionLevel {
                tx1_index,
                tx2_index,
                addresses,
            } ==> {
                &&& tx1_index == tx_idx && tx2_index < tx_idx
                &&& d.reads.contains_key(tx_idx) && d.writes.contains_key(tx_idx)
                    && d.writes.contains_key(tx2_index)
                &&& forall|account: Address| #[trigger]
                    addresses.contains(account) <==> in_conflict_about(
                        d,
                        tx_idx,
                        tx2_index,
                        account,
                    )
                &&& exists|account: Address| #[trigger] addresses.contains(account)
            }),
        forall|other: usize, account: Address|
            other < tx_idx && d.reads.contains_key(tx_idx) && d.writes.contains_key(tx_idx)
                && d.writes.contains_key(other) && #[trigger] in_conflict_about(
                d,
                tx_idx,
                other,
                account,
            ) ==> exists|i: int|
                0 <= i < conflicts.len() && (
                #[trigger] conflicts[i] matches ConflictView::TransactionLevel { tx2_index, .. }
                    && tx2_index == other),
        forall|i: int, j: int|
            0 <= i < j < conflicts.len() && (#[trigger] conflicts[j]) is TransactionLevel ==> (
            #[trigger] conflicts[i]) is TransactionLevel && conflicts[i]->tx2_index
                != conflicts[j]->tx2_index,
{
    assert forall|i: int| 0 <= i < conflicts.len() && (
    #[trigger] conflicts[i]) is TransactionLevel implies d.is_transaction_conflict(
        tx_idx,
        conflicts[i],
    ) by {
        assert(conflicts.contains(conflicts[i]));
    }
    assert forall|i: int| 0 <= i < conflicts.len() implies (
    #[trigger] conflicts[i] matches ConflictView::TransactionLevel {
        tx1_index,
        tx2_index,
        addresses,
    } ==> {
        &&& forall|account: Address| #[trigger]
            addresses.contains(account) <==> in_conflict_about(d, tx_idx, tx2_index, account)
        &&& exists|account: Address| #[trigger] addresses.contains(account)
    }) by {
        if let ConflictView::TransactionLevel { tx1_index, tx2_index, addresses } = conflicts[i] {
            assert(d.is_transaction_conflict(tx_idx, conflicts[i]));
            assert forall|account: Address| #[trigger]
                addresses.contains(account) <==> in_conflict_about(
                d,
                tx_idx,
                tx2_index,
                account,
            ) by {
                lemma_about(d, tx_idx, tx2_index, account);
            }
            if forall|account: Address| !addresses.contains(account) {
                assert(addresses =~= Set::<Address>::empty());
            }
        }
    }
    assert forall|other: usize, account: Address|
        other < tx_idx && d.reads.contains_key(tx_idx) && d.writes.contains_key(tx_idx)
            && d.writes.contains_key(other) && #[trigger] in_conflict_about(
            d,
            tx_idx,
            other,
            account,
        ) implies exists|i: int|
        0 <= i < conflicts.len() && (
        #[trigger] conflicts[i] matches ConflictView::TransactionLevel { tx2_index, .. }
            && tx2_index == other) by {
        lemma_about(d, tx_idx, other, account);
        let addresses = crate::parallel::conflict_detector::shared_addresses(
            d.reads[tx_idx],
            d.writes[tx_idx],
            d.writes[other],
        );
        assert(addresses.contains(account));
        let c = ConflictView::TransactionLevel { tx1_index: tx_idx, tx2_index: other, addresses };
        assert(d.is_transaction_conflict(tx_idx, c));
        assert(conflicts.contains(c));
    }
}

proof fn lemma_about(d: DetectorView, tx_idx: usize, other: usize, account: Address)
    ensures
        crate::parallel::conflict_detector::shared_addresses(
            d.reads[tx_idx],
            d.writes[tx_idx],
            d.writes[other],
        ).contains(account) <==> in_conflict_about(d, tx_idx, other, account),
{
    if shares(d.reads[tx_idx], d.writes[other], account) {
        let at = choose|at: U256| #[trigger]
            d.reads[tx_idx].contains((account, at)) && d.writes[other].contains((account, at));
        assert(d.writes[other].contains((account, at)));
    }
    if shares(d.writes[tx_idx], d.writes[other], account) {
        let at = choose|at: U256| #[trigger]
            d.writes[tx_idx].contains((account, at)) && d.writes[other].contains((account, at));
        assert(d.writes[other].contains((account, at)));
    }
    if in_conflict_about(d, tx_idx, other, account) {
        let at = choose|at: U256|
            #![trigger d.writes[other].contains((account, at))]
            d.writes[other].contains((account, at)) && (d.reads[tx_idx].contains((account, at))
                || d.writes[tx_idx].contains((account, at)));
        if d.reads[tx_idx].contains((account, at)) {
            assert(shares(d.reads[tx_idx], d.writes[other], account));
        } else {
            assert(d.writes[tx_idx].contains((account, at)));
            assert(shares(d.writes[tx_idx], d.writes[other], account));
        }
    }
}

/// Of two transactions that a fresh detector analyses, the later is told to be in conflict
/// with an operation of the earlier exactly if that operation is the last of the earlier one
/// to write a slot that the later one reads.
pub proof fn law_the_later_of_two_reads_the_last_write_of_the_earlier(
    first: usize,
    first_ops: Seq<Operation>,
    second: usize,
    second_ops: Seq<Operation>,
    conflicts: Seq<ConflictView>,
    k: usize,
    account: Address,
    at: U256,
)
    requires
        first < second,
        first_ops.len() <= usize::MAX,
        second_ops.len() <= usize::MAX,
        no_accesses().analyzed(first, first_ops).analyzed(second, second_ops).detected(
            second,
            conflicts,
        ),
    ensures
        conflicts.contains(
            ConflictView::OperationLevel {
                tx_index: first,
                op_index: k,
                address: account,
                slot: Some(at),
            },
        ) <==> k < first_ops.len() && writes_slot(first_ops[k as int], account, at) && (forall|
            m: int,
        |
            k < m < first_ops.len() ==> !writes_slot(#[trigger] first_ops[m], account, at)) && (
        exists|j: int|
            0 <= j < second_ops.len() && counts_as_read(#[trigger] second_ops[j], account, at)),
{
    let none = no_accesses();
    let one = none.analyzed(first, first_ops);
    let two = one.analyzed(second, second_ops);
    let c = ConflictView::OperationLevel {
        tx_index: first,
        op_index: k,
        address: account,
        slot: Some(at),
    };
    law_what_an_analysis_puts_on_record(none, first, first_ops, account, at);
    law_what_an_analysis_puts_on_record(one, second, second_ops, account, at);
    law_what_an_analysis_knows(one, second, second_ops, account, at);
    law_an_operation_conflict_names_the_last_write(two, second, conflicts);
    let earlier = record_of(one, account, at);
    let record = record_of(two, account, at);
    assert(record_of(none, account, at).len() == 0);
    assert forall|p: int| 0 <= p < earlier.len() implies #[trigger] record[p] == earlier[p] by {
        assert(record.take(earlier.len() as int)[p] == earlier[p]);
    }
    if conflicts.contains(c) {
        let i = conflicts.index_of(c);
        assert(conflicts[i] == c);
        let p = choose|p: int| #[trigger]
            is_last_write_before(record, second, p) && record[p] == (first, k, true);
        assert(p < earlier.len());
        assert(record[p] == earlier[p]);
        assert forall|m: int| k < m < first_ops.len() implies !writes_slot(
            #[trigger] first_ops[m],
            account,
            at,
        ) by {
            if writes_slot(first_ops[m], account, at) {
                let q = choose|q: int| 0 <= q < earlier.len() && (#[trigger] earlier[q]).1 == m;
                assert(earlier[q].2);
                assert(record[q] == earlier[q]);
                if q < p {
                    assert(earlier[q].1 < earlier[p].1);
                }
                assert(q > p);
            }
        }
    }
    if k < first_ops.len() && writes_slot(first_ops[k as int], account, at) && (forall|m: int|
        k < m < first_ops.len() ==> !writes_slot(#[trigger] first_ops[m], account, at)) && (exists|
        j: int,
    |
        0 <= j < second_ops.len() && counts_as_read(#[trigger] second_ops[j], account, at)) {
        let p = choose|p: int| 0 <= p < earlier.len() && (#[trigger] earlier[p]).1 == k as int;
        assert(record[p] == earlier[p]);
        assert forall|q: int| p < q < record.len() implies !((#[trigger] record[q]).2
            && record[q].0 < second) by {
            if q < earlier.len() {
                assert(record[q] == earlier[q]);
                assert(earlier[p].1 < earlier[q].1);
            }
        }
        assert(is_last_write_before(record, second, p));
    }
}

/// Asked again, the detector gives the same answer and changes nothing; asked of one
/// transaction, it keeps what it knows of the others and its answers about them.
pub proof fn law_answers_are_kept(
    d: DetectorView,
    tx_idx: usize,
    conflicts: Seq<ConflictView>,
    after: DetectorView,
    again: Seq<ConflictView>,
    last: DetectorView,
)
    requires
        d.answers(tx_idx, conflicts, after),
        after.answers(tx_idx, again, last),
    ensures
        again == conflicts,
        last == after,
        after.reads == d.reads && after.writes == d.writes && after.history == d.history,
        forall|k: (usize, usize)|
            k.0 != tx_idx ==> (#[trigger] after.cache.contains_key(k) <==> d.cache.contains_key(k)),
        forall|k: (usize, usize)|
            d.cache.contains_key(k) ==> #[trigger] after.cache.contains_key(k) && after.cache[k]
                == d.cache[k],
{
}

/// A detector that has analysed nothing knows nothing, and has nothing to tell of any
/// transaction.
pub proof fn law_nothing_analysed_nothing_told(tx_idx: usize, conflicts: Seq<ConflictView>)
    requires
        no_accesses().detected(tx_idx, conflicts),
    ensures
        conflicts.len() == 0,
        forall|t: usize| !no_accesses().reads.contains_key(t),
        forall|t: usize| !no_accesses().writes.contains_key(t),
        forall|key: StorageKey| !no_accesses().history.contains_key(key),
        forall|k: (usize, usize)| !no_accesses().cache.contains_key(k),
{
    if conflicts.len() > 0 {
        assert(conflicts.contains(conflicts[0]));
    }
}

/// Conflicts are told one by one: as many, in the same order, with the same transactions,
/// operation, slot and accounts.
pub proof fn law_what_is_told_of_each_conflict(conflicts: Seq<ConflictType>, i: int)
    requires
        0 <= i < conflicts.len(),
    ensures
        conflict_views(conflicts).len() == conflicts.len(),
        match conflicts[i] {
            ConflictType::OperationLevel { tx_index, op_index, address, slot } => conflict_views(
                conflicts,
            )[i] == (ConflictView::OperationLevel { tx_index, op_index, address, slot }),
            ConflictType::TransactionLevel { tx1_index, tx2_index, conflicting_addresses } =>
            conflict_views(conflicts)[i] == (ConflictView::TransactionLevel {
                tx1_index,
                tx2_index,
                addresses: conflicting_addresses@,
            }),
        },
{
}

} // verus!
