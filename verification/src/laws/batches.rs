//! What the handler of a batch tells of its transactions, and which of them it runs again.
use crate::handler::conflict_channel::CHANNEL_CAPACITY;
use crate::handler::dependencies::{
    deps_closed, deps_of, is_reexecution_order, listed, stands_before,
};
use crate::handler::parallel::{
    accessing, are_reports, clash, clashes, clashing, concerned, is_report,
    placed, restarted, snapshots, HandlerView,
};
use crate::parallel::operation_logs::{Conflict, LogView};
use crate::db::versioned::{SnapshotView, StateView};
use crate::primitives::{Address, StorageKey, U256};
use vstd::prelude::*;

verus! {

/// Whether a log noted a read of a slot.
pub open spec fn noted_read(log: LogView, account: Address, at: U256) -> bool {
    exists|k: int| 0 <= k < log.reads.len() && #[trigger] log.reads[k] == (account, at)
}

/// Whether a log noted a write of a slot.
pub open spec fn noted_write(log: LogView, account: Address, at: U256) -> bool {
    exists|k: int|
        0 <= k < log.writes.len() && (#[trigger] log.writes[k]).0 == account && log.writes[k].1
            == at
}

/// Whether a log wrote a slot that another read or wrote.
pub open spec fn met_in_slot(log: LogView, other: LogView, account: Address, at: U256) -> bool {
    noted_write(other, account, at) && (noted_read(log, account, at) || noted_write(
        log,
        account,
        at,
    ))
}

/// Whether a log has the smaller index and wrote a slot that the other read or wrote, or
/// accessed an account that the other accessed.
pub open spec fn gets_in_the_way(log: LogView, earlier: LogView) -> bool {
    earlier.tx_index < log.tx_index && ((exists|account: Address, at: U256| #[trigger]
        met_in_slot(log, earlier, account, at)) || (exists|account: Address| #[trigger]
        log.accounts.contains(account) && earlier.accounts.contains(account)))
}

/// Whether two positions of a batch hold logs that can be read, the second of which gets in
/// the way of the first.
pub open spec fn blocks(logs: Seq<Option<LogView>>, i: int, j: int) -> bool {
    logs[i] is Some && logs[j] is Some && gets_in_the_way(logs[i]->0, logs[j]->0)
}

proof fn lemma_slot_conflict(log: LogView, other: LogView, account: Address, at: U256)
    ensures
        log.slot_conflict(other, (account, at)) <==> met_in_slot(log, other, account, at),
{
    crate::laws::logs::law_what_was_noted(log, other, account, at);
}

proof fn lemma_clash(logs: Seq<Option<LogView>>, i: int, j: int)
    ensures
        clash(logs, i, j) <==> blocks(logs, i, j),
{
    if logs[i] is Some && logs[j] is Some {
        let log = logs[i]->0;
        let earlier = logs[j]->0;
        if exists|key: StorageKey| log.slot_conflict(earlier, key) {
            let key = choose|key: StorageKey| log.slot_conflict(earlier, key);
            lemma_slot_conflict(log, earlier, key.0, key.1);
            assert(met_in_slot(log, earlier, key.0, key.1));
        }
        if exists|account: Address, at: U256| #[trigger] met_in_slot(log, earlier, account, at) {
            let (account, at) = choose|account: Address, at: U256| #[trigger]
                met_in_slot(log, earlier, account, at);
            lemma_slot_conflict(log, earlier, account, at);
            assert(log.slot_conflict(earlier, (account, at)));
        }
        if !log.accounts.disjoint(earlier.accounts) {
            let account = choose|account: Address|
                log.accounts.contains(account) && earlier.accounts.contains(account);
            assert(log.accounts.contains(account) && earlier.accounts.contains(account));
        }
    }
}

/// Whether some log of a batch gets in the way of the one at a position.
pub open spec fn is_blocked(logs: Seq<Option<LogView>>, i: int) -> bool {
    exists|j: int| 0 <= j < logs.len() && #[trigger] blocks(logs, i, j)
}

proof fn lemma_clashes(logs: Seq<Option<LogView>>, i: int)
    ensures
        clashes(logs, i) <==> is_blocked(logs, i),
{
    if clashes(logs, i) {
        let j = choose|j: int| 0 <= j < logs.len() && #[trigger] clash(logs, i, j);
        lemma_clash(logs, i, j);
        assert(blocks(logs, i, j));
    }
    if is_blocked(logs, i) {
        let j = choose|j: int| 0 <= j < logs.len() && #[trigger] blocks(logs, i, j);
        lemma_clash(logs, i, j);
        assert(clash(logs, i, j));
    }
}

/// The check of a transaction reports a conflict as soon as any log that can be read, with a
/// smaller index, wrote a slot that the transaction read or wrote, or accessed an account that
/// it accessed. What it reports is the conflict with the first of these logs: a slot that they
/// meet in, or an account that both accessed where they meet in no slot.
pub proof fn law_a_log_in_the_way_is_reported(
    logs: Seq<Option<LogView>>,
    i: int,
    report: Option<Conflict>,
)
    requires
        0 <= i < logs.len(),
        is_report(logs, i, report),
    ensures
        forall|j: int| 0 <= j < logs.len() && #[trigger] blocks(logs, i, j) ==> report is Some,
        report is Some ==> exists|j: int|
            0 <= j < logs.len() && #[trigger] blocks(logs, i, j) && (forall|k: int|
                0 <= k < j ==> !#[trigger] blocks(logs, i, k)) && match report->0 {
                Conflict::StorageSlot(account, at) => met_in_slot(
                    logs[i]->0,
                    logs[j]->0,
                    account,
                    at,
                ),
                Conflict::AccountAccess(account) => logs[i]->0.accounts.contains(account)
                    && logs[j]->0.accounts.contains(account) && (forall|a: Address, at: U256|
                    !#[trigger] met_in_slot(logs[i]->0, logs[j]->0, a, at)),
            },
{
    assert forall|j: int| 0 <= j < logs.len() && #[trigger] blocks(logs, i, j) implies report is Some by {
        lemma_clash(logs, i, j);
        assert(clash(logs, i, j));
    }
    if report is Some {
        let conflict = report->0;
        let j = choose|j: int|
            0 <= j < logs.len() && #[trigger] clash(logs, i, j)
                && crate::handler::parallel::is_conflict_of(
                logs[i]->Some_0,
                logs[j]->Some_0,
                conflict,
            ) && forall|k: int| 0 <= k < j ==> !#[trigger] clash(logs, i, k);
        lemma_clash(logs, i, j);
        assert(blocks(logs, i, j));
        assert forall|k: int| 0 <= k < j implies !#[trigger] blocks(logs, i, k) by {
            lemma_clash(logs, i, k);
            assert(!clash(logs, i, k));
        }
        match conflict {
            Conflict::StorageSlot(account, at) => {
                lemma_slot_conflict(logs[i]->0, logs[j]->0, account, at);
            },
            Conflict::AccountAccess(account) => {
                assert forall|a: Address, at: U256| !#[trigger]
                    met_in_slot(logs[i]->0, logs[j]->0, a, at) by {
                    lemma_slot_conflict(logs[i]->0, logs[j]->0, a, at);
                    assert(!logs[i]->0.slot_conflict(logs[j]->0, (a, at)));
                }
            },
        }
    }
}

/// The transactions that count as in conflict are those that some log of the batch gets in the
/// way of.
pub proof fn law_how_many_are_in_conflict<R>(logs: Seq<Option<LogView>>, results: Seq<(usize, R)>)
    ensures
        clashing(logs, results) == results.filter(
            |result: (usize, R)| is_blocked(logs, result.0 as int),
        ).len(),
    decreases results.len(),
{
    reveal(Seq::filter);
    if results.len() > 0 {
        law_how_many_are_in_conflict(logs, results.drop_last());
        lemma_clashes(logs, results.last().0 as int);
    }
}

/// The reports of a batch are one for each transaction that some log gets in the way of, in
/// the order in which the transactions ended, and each is what its check reports.
pub proof fn law_each_conflict_is_reported_in_turn<R>(
    logs: Seq<Option<LogView>>,
    results: Seq<(usize, R)>,
    tx: usize,
    result: R,
    reports: Seq<Conflict>,
)
    requires
        are_reports(logs, results.push((tx, result)), reports),
    ensures
        if is_blocked(logs, tx as int) {
            reports.len() > 0 && is_report(logs, tx as int, Some(reports.last())) && are_reports(
                logs,
                results,
                reports.drop_last(),
            )
        } else {
            are_reports(logs, results, reports)
        },
        reports.len() == results.push((tx, result)).filter(
            |result: (usize, R)| is_blocked(logs, result.0 as int),
        ).len(),
{
    let all = results.push((tx, result));
    assert(all.drop_last() =~= results);
    lemma_clashes(logs, tx as int);
    lemma_reports_len(logs, all, reports);
    law_how_many_are_in_conflict(logs, all);
}

proof fn lemma_reports_len<R>(
    logs: Seq<Option<LogView>>,
    results: Seq<(usize, R)>,
    reports: Seq<Conflict>,
)
    requires
        are_reports(logs, results, reports),
    ensures
        reports.len() == clashing(logs, results),
    decreases results.len(),
{
    if results.len() > 0 {
        if clashes(logs, results.last().0 as int) {
            lemma_reports_len(logs, results.drop_last(), reports.drop_last());
        } else {
            lemma_reports_len(logs, results.drop_last(), reports);
        }
    }
}

/// Whether a log recorded an access to what a conflict is about.
pub open spec fn accessed(log: Option<LogView>, conflict: Conflict) -> bool {
    log matches Some(l) && match conflict {
        Conflict::StorageSlot(account, at) => l.slots.contains((account, at)),
        Conflict::AccountAccess(account) => l.accounts.contains(account),
    }
}

/// The transactions found for a conflict are those of the logs that can be read and recorded an
/// access to what it is about, in the order of the logs.
pub proof fn law_who_accessed_what_a_conflict_is_about(
    logs: Seq<Option<LogView>>,
    conflict: Conflict,
)
    ensures
        accessing(logs, conflict) == logs.filter(
            |log: Option<LogView>| accessed(log, conflict),
        ).map_values(|log: Option<LogView>| log->0.tx_index),
    decreases logs.len(),
{
    reveal(Seq::filter);
    let p = |log: Option<LogView>| accessed(log, conflict);
    let f = |log: Option<LogView>| log->0.tx_index;
    if logs.len() > 0 {
        law_who_accessed_what_a_conflict_is_about(logs.drop_last(), conflict);
        assert(logs.filter(p).map_values(f) =~= if p(logs.last()) {
            logs.drop_last().filter(p).map_values(f).push(logs.last()->0.tx_index)
        } else {
            logs.drop_last().filter(p).map_values(f)
        });
    } else {
        assert(logs.filter(p).map_values(f) =~= accessing(logs, conflict));
    }
}

/// A transaction is concerned by some conflicts exactly if its log can be read and recorded an
/// access to what one of them is about.
pub proof fn law_who_is_concerned(
    logs: Seq<Option<LogView>>,
    conflicts: Seq<Conflict>,
    tx: usize,
)
    ensures
        concerned(logs, conflicts).contains(tx) <==> exists|c: int, i: int|
            0 <= c < conflicts.len() && 0 <= i < logs.len() && accessed(
                #[trigger] logs[i],
                #[trigger] conflicts[c],
            ) && logs[i]->0.tx_index == tx,
    decreases conflicts.len(),
{
    if conflicts.len() > 0 {
        let rest = conflicts.drop_last();
        law_who_is_concerned(logs, rest, tx);
        lemma_accessing_is(logs, conflicts.last(), tx);
        let last = conflicts.len() - 1;
        if concerned(logs, conflicts).contains(tx) {
            if concerned(logs, rest).contains(tx) {
                let (c, i) = choose|c: int, i: int|
                    0 <= c < rest.len() && 0 <= i < logs.len() && accessed(
                        #[trigger] logs[i],
                        #[trigger] rest[c],
                    ) && logs[i]->0.tx_index == tx;
                assert(rest[c] == conflicts[c]);
                assert(accessed(logs[i], conflicts[c]));
            } else {
                let i = choose|i: int|
                    0 <= i < logs.len() && accessed(#[trigger] logs[i], conflicts.last())
                        && logs[i]->0.tx_index == tx;
                assert(accessed(logs[i], conflicts[last]));
            }
        }
        if exists|c: int, i: int|
            0 <= c < conflicts.len() && 0 <= i < logs.len() && accessed(
                #[trigger] logs[i],
                #[trigger] conflicts[c],
            ) && logs[i]->0.tx_index == tx {
            let (c, i) = choose|c: int, i: int|
                0 <= c < conflicts.len() && 0 <= i < logs.len() && accessed(
                    #[trigger] logs[i],
                    #[trigger] conflicts[c],
                ) && logs[i]->0.tx_index == tx;
            if c < last {
                assert(rest[c] == conflicts[c]);
                assert(accessed(logs[i], rest[c]));
            } else {
                assert(accessed(logs[i], conflicts.last()));
            }
        }
    }
}

proof fn lemma_accessing_is(logs: Seq<Option<LogView>>, conflict: Conflict, tx: usize)
    ensures
        accessing(logs, conflict).to_set().contains(tx) <==> exists|i: int|
            0 <= i < logs.len() && accessed(#[trigger] logs[i], conflict) && logs[i]->0.tx_index
                == tx,
        accessing(logs, conflict).contains(tx) <==> accessing(logs, conflict).to_set().contains(tx),
    decreases logs.len(),
{
    let found = accessing(logs, conflict);
    if logs.len() > 0 {
        let rest = logs.drop_last();
        lemma_accessing_is(rest, conflict, tx);
        let before = accessing(rest, conflict);
        let last = logs.len() - 1;
        if found.contains(tx) {
            let k = found.index_of(tx);
            if k < before.len() {
                assert(before[k] == tx);
                assert(before.contains(tx));
                let i = choose|i: int|
                    0 <= i < rest.len() && accessed(#[trigger] rest[i], conflict)
                        && rest[i]->0.tx_index == tx;
                assert(logs[i] == rest[i]);
                assert(accessed(logs[i], conflict));
            } else {
                assert(accessed(logs[last], conflict));
            }
        }
        if exists|i: int|
            0 <= i < logs.len() && accessed(#[trigger] logs[i], conflict) && logs[i]->0.tx_index
                == tx {
            let i = choose|i: int|
                0 <= i < logs.len() && accessed(#[trigger] logs[i], conflict) && logs[i]->0.tx_index
                    == tx;
            if i < last {
                assert(rest[i] == logs[i]);
                assert(accessed(rest[i], conflict));
                let k = before.index_of(tx);
                assert(found[k] == tx);
            } else {
                assert(found[found.len() - 1] == tx);
            }
            assert(found.contains(tx));
        }
    }
}

/// Whether a version stands on another and holds nothing.
pub open spec fn is_empty_version(version: SnapshotView, parent: int) -> bool {
    &&& version.parent == parent
    &&& forall|key: StorageKey| !version.storage.contains_key(key)
    &&& forall|account: Address| !version.accounts.contains_key(account)
}

/// Some new versions, put on one after the other, take the numbers that follow, hold nothing
/// and stand each on the one before; what was there before them stays.
pub proof fn law_new_versions_are_empty_and_stacked(state: StateView, count: nat)
    requires
        state.current + count <= u64::MAX,
    ensures
        snapshots(state, count).current == state.current + count,
        snapshots(state, count).metadata == state.metadata,
        forall|v: u64|
            state.current < v <= state.current + count ==> {
                &&& #[trigger] snapshots(state, count).versions.contains_key(v)
                &&& is_empty_version(snapshots(state, count).versions[v], v - 1)
            },
        forall|v: u64|
            !(state.current < v <= state.current + count) ==> (#[trigger] snapshots(
                state,
                count,
            ).versions.contains_key(v) <==> state.versions.contains_key(v)),
        forall|v: u64|
            !(state.current < v <= state.current + count) && state.versions.contains_key(v)
                ==> #[trigger] snapshots(state, count).versions[v] == state.versions[v],
    decreases count,
{
    if count > 0 {
        law_new_versions_are_empty_and_stacked(state, (count - 1) as nat);
        let before = snapshots(state, (count - 1) as nat);
        let after = snapshots(state, count);
        assert(after == before.snapshot());
        assert forall|v: u64| state.current < v <= state.current + count implies {
            &&& #[trigger] after.versions.contains_key(v)
            &&& is_empty_version(after.versions[v], v - 1)
        } by {
            if v < state.current + count {
                assert(before.versions.contains_key(v));
                assert(after.versions[v] == before.versions[v]);
            }
        }
    }
}

/// Whether a log is that of a transaction that has not done anything yet.
pub open spec fn is_fresh(log: LogView, tx: int, version: int) -> bool {
    &&& log.tx_index == tx && log.version == version
    &&& log.operations.len() == 0 && log.order.len() == 0
    &&& log.reads.len() == 0 && log.writes.len() == 0
    &&& log.read_count == 0 && log.write_count == 0 && log.account_access_count == 0
    &&& forall|key: StorageKey| !log.slots.contains(key)
    &&& forall|account: Address| !log.accounts.contains(account)
    &&& !log.finalized
}

/// The transactions that run again, in an order, get fresh logs on the versions that follow
/// one another in that order; a log that cannot be read, or of a transaction that does not run
/// again, stays.
pub proof fn law_who_runs_again_starts_afresh(
    logs: Seq<Option<LogView>>,
    order: Seq<usize>,
    first: int,
    i: int,
)
    requires
        order.no_duplicates(),
        0 <= first,
        first + order.len() <= u64::MAX,
        0 <= i < logs.len() <= usize::MAX,
    ensures
        restarted(logs, order, first).len() == logs.len(),
        restarted(logs, order, first)[i] is Some <==> logs[i] is Some,
        forall|k: int|
            0 <= k < order.len() && #[trigger] order[k] == i && logs[i] is Some ==> is_fresh(
                restarted(logs, order, first)[i]->0,
                i,
                first + k,
            ),
        (forall|k: int| 0 <= k < order.len() ==> #[trigger] order[k] != i) ==> restarted(
            logs,
            order,
            first,
        )[i] == logs[i],
    decreases order.len(),
{
    if order.len() > 0 {
        let rest = order.drop_last();
        let last = order.len() - 1;
        assert forall|k: int| 0 <= k < rest.len() implies #[trigger] rest[k] == order[k] by {}
        law_who_runs_again_starts_afresh(logs, rest, first, i);
        let tx = order.last();
        if tx == i {
            assert forall|k: int| 0 <= k < rest.len() implies #[trigger] rest[k] != i by {
                assert(order[k] != order[last]);
            }
        } else if tx < logs.len() {
            law_who_runs_again_starts_afresh(logs, rest, first, tx as int);
        }
        assert(order[last] == tx);
        assert forall|k: int|
            0 <= k < order.len() && #[trigger] order[k] == i && logs[i] is Some implies is_fresh(
            restarted(logs, order, first)[i]->0,
            i,
            first + k,
        ) by {
            if k < last {
                assert(rest[k] == i);
                assert(order[k] != order[last]);
            } else {
                assert(tx == i);
                assert(restarted(logs, rest, first)[i] is Some);
            }
        }
    }
}

/// When some conflicts are resolved, every transaction whose log can be read and that is
/// concerned by one gets a fresh log on a version newer than all there were; every other log
/// stays, and so do the gas, the contexts, the threads and the reports.
pub proof fn law_what_resolving_conflicts_changes<BLOCK, TX>(
    handler: HandlerView<BLOCK, TX>,
    conflicts: Seq<Conflict>,
    after: HandlerView<BLOCK, TX>,
    tx: usize,
)
    requires
        handler.resolves_to(conflicts, after),
        tx < handler.logs.len(),
        handler.state.current + handler.logs.len() < u64::MAX,
    ensures
        after.logs[tx as int] is Some <==> handler.logs[tx as int] is Some,
        handler.logs[tx as int] is Some && (exists|c: int, i: int|
            0 <= c < conflicts.len() && 0 <= i < handler.logs.len() && accessed(
                #[trigger] handler.logs[i],
                #[trigger] conflicts[c],
            ) && handler.logs[i]->0.tx_index == tx) ==> after.logs[tx as int]->0.version
            > handler.state.current && is_fresh(
            after.logs[tx as int]->0,
            tx as int,
            after.logs[tx as int]->0.version as int,
        ),
        (forall|c: int, i: int|
            0 <= c < conflicts.len() && 0 <= i < handler.logs.len() && accessed(
                #[trigger] handler.logs[i],
                #[trigger] conflicts[c],
            ) ==> handler.logs[i]->0.tx_index != tx) ==> after.logs[tx as int]
            == handler.logs[tx as int],
        after.gas == handler.gas && after.contexts == handler.contexts,
        after.threads == handler.threads && after.reported == handler.reported,
{
    law_who_is_concerned(handler.logs, conflicts, tx);
    let order = choose|order: Seq<usize>|
        crate::handler::parallel::is_listing(order, concerned(handler.logs, conflicts)) && after
            == #[trigger] handler.reexecuted(order);
    lemma_still_readable(handler.logs, order, handler.state.current + 1, tx as int);
    if handler.logs[tx as int] is Some {
        crate::handler::parallel::law_concerned_transactions_start_again(
            handler,
            conflicts,
            after,
            tx,
        );
    }
}

/// When some conflicts are resolved, one empty version is put on the state, and one more for
/// each transaction that is concerned; what was there before stays.
pub proof fn law_what_resolving_conflicts_does_to_the_state<BLOCK, TX>(
    handler: HandlerView<BLOCK, TX>,
    conflicts: Seq<Conflict>,
    after: HandlerView<BLOCK, TX>,
)
    requires
        handler.resolves_to(conflicts, after),
        handler.state.current + handler.logs.len() < u64::MAX,
    ensures
        after.state.current == handler.state.current + 1 + concerned(handler.logs, conflicts).len(),
        after.state.metadata == handler.state.metadata,
        forall|v: u64|
            v <= handler.state.current ==> (#[trigger] after.state.versions.contains_key(v)
                <==> handler.state.versions.contains_key(v)),
        forall|v: u64|
            v <= handler.state.current && handler.state.versions.contains_key(v)
                ==> #[trigger] after.state.versions[v] == handler.state.versions[v],
        forall|v: u64|
            handler.state.current < v <= after.state.current
                ==> #[trigger] after.state.versions.contains_key(v) && is_empty_version(
                after.state.versions[v],
                v - 1,
            ),
{
    crate::handler::parallel::lemma_concerned_fit(handler.logs, conflicts);
    let order = choose|order: Seq<usize>|
        crate::handler::parallel::is_listing(order, concerned(handler.logs, conflicts)) && after
            == #[trigger] handler.reexecuted(order);
    order.unique_seq_to_set();
    let count = (order.len() + 1) as nat;
    law_new_versions_are_empty_and_stacked(handler.state, count);
    assert(after.state == snapshots(handler.state, count));
    assert forall|v: u64| handler.state.current < v <= after.state.current implies
        #[trigger] after.state.versions.contains_key(v) && is_empty_version(
        after.state.versions[v],
        v - 1,
    ) by {
        assert(snapshots(handler.state, count).versions.contains_key(v));
    }
}

proof fn lemma_still_readable(
    logs: Seq<Option<LogView>>,
    order: Seq<usize>,
    first: int,
    i: int,
)
    requires
        0 <= i < logs.len(),
    ensures
        restarted(logs, order, first).len() == logs.len(),
        restarted(logs, order, first)[i] is Some <==> logs[i] is Some,
        logs[i] is None ==> restarted(logs, order, first)[i] == logs[i],
    decreases order.len(),
{
    if order.len() > 0 {
        lemma_still_readable(logs, order.drop_last(), first, i);
    }
}

/// Each result stands at the position of its transaction: the last that came for it.
pub proof fn law_where_results_stand<R>(results: Seq<(usize, R)>, len: nat, i: int)
    requires
        0 <= i < len,
        forall|k: int| 0 <= k < results.len() ==> (#[trigger] results[k]).0 < len,
    ensures
        placed(results, len).len() == len,
        forall|k: int|
            0 <= k < results.len() && (#[trigger] results[k]).0 == i && (forall|m: int|
                k < m < results.len() ==> (#[trigger] results[m]).0 != i) ==> placed(results, len)[i]
                == Some(results[k].1),
        (forall|k: int| 0 <= k < results.len() ==> (#[trigger] results[k]).0 != i) ==> placed(
            results,
            len,
        )[i] is None,
    decreases results.len(),
{
    if results.len() > 0 {
        let rest = results.drop_last();
        let last = results.len() - 1;
        assert forall|k: int| 0 <= k < rest.len() implies #[trigger] rest[k] == results[k] by {}
        law_where_results_stand(rest, len, i);
        assert forall|k: int|
            0 <= k < results.len() && (#[trigger] results[k]).0 == i && (forall|m: int|
                k < m < results.len() ==> (#[trigger] results[m]).0 != i) implies placed(
            results,
            len,
        )[i] == Some(results[k].1) by {
            if k < last {
                assert(results[last].0 != i);
                assert(rest[k].0 == i);
                assert forall|m: int| k < m < rest.len() implies (#[trigger] rest[m]).0 != i by {
                    assert(results[m].0 != i);
                }
            }
        }
        assert(results[last] == results.last());
    }
}

/// Once a batch is handled no report is left. Without a conflict every result stands where its
/// transaction is and nothing else changes; with one no result stands.
pub proof fn law_results_stand_only_without_conflicts<BLOCK, TX, R>(
    handler: HandlerView<BLOCK, TX>,
    conflicts: Seq<Conflict>,
    results: Seq<(usize, R)>,
    after: HandlerView<BLOCK, TX>,
    standing: Seq<Option<R>>,
    i: int,
)
    requires
        handler.handles_to(conflicts, results, after, standing),
        0 <= i < results.len(),
        forall|k: int| 0 <= k < results.len() ==> (#[trigger] results[k]).0 < results.len(),
    ensures
        after.reported.len() == 0,
        after.gas == handler.gas && after.contexts == handler.contexts && after.threads
            == handler.threads,
        standing.len() == results.len(),
        conflicts.len() > 0 ==> standing[i] is None,
        conflicts.len() == 0 ==> after.logs == handler.logs && after.state == handler.state,
        conflicts.len() == 0 ==> forall|k: int|
            0 <= k < results.len() && (#[trigger] results[k]).0 == i && (forall|m: int|
                k < m < results.len() ==> (#[trigger] results[m]).0 != i) ==> standing[i] == Some(
                results[k].1,
            ),
        conflicts.len() == 0 && (forall|k: int|
            0 <= k < results.len() ==> (#[trigger] results[k]).0 != i) ==> standing[i] is None,
{
    law_where_results_stand(results, results.len(), i);
}

/// Up to 1024 reports of conflicts wait for the end of a batch.
pub proof fn law_how_many_reports_wait<'a, BLOCK, TX>(
    handler: crate::handler::parallel::ParallelExecutionHandler<'a, BLOCK, TX>,
)
    requires
        handler.wf(),
    ensures
        handler@.reported.len() <= 1024,
        CHANNEL_CAPACITY == 1024,
{
    crate::handler::parallel::law_wf_is_consistent(handler);
}

/// Whether a transaction depends on another.
pub open spec fn depends(
    dependencies: Map<usize, Set<usize>>,
    tx: usize,
    other: usize,
) -> bool {
    dependencies.contains_key(tx) && dependencies[tx].contains(other)
}

/// The order in which some transactions run again names each once, holds all that were asked
/// for and all that one in it depends on; whatever else stands in it is there because another
/// one in it depends on it.
pub proof fn law_what_runs_again_is_needed(
    dependencies: Map<usize, Set<usize>>,
    queue: Set<usize>,
    order: Seq<usize>,
)
    requires
        is_reexecution_order(dependencies, queue, order),
    ensures
        forall|i: int, j: int|
            0 <= i < j < order.len() ==> #[trigger] order[i] != #[trigger] order[j],
        forall|tx: usize| #[trigger] queue.contains(tx) ==> order.contains(tx),
        forall|i: int, other: usize|
            0 <= i < order.len() && #[trigger] depends(dependencies, order[i], other)
                ==> order.contains(other),
        forall|i: int|
            0 <= i < order.len() ==> queue.contains(#[trigger] order[i]) || exists|j: int|
                0 <= j < order.len() && j != i && #[trigger] depends(
                    dependencies,
                    order[j],
                    order[i],
                ),
{
    assert forall|i: int, other: usize|
        0 <= i < order.len() && #[trigger] depends(
            dependencies,
            order[i],
            other,
        ) implies order.contains(other) by {
        assert(order.to_set().contains(order[i]));
        assert(deps_of(dependencies, order[i]).contains(other));
        assert(order.to_set().contains(other));
    }
    assert forall|i: int| 0 <= i < order.len() implies queue.contains(#[trigger] order[i])
        || exists|j: int|
        0 <= j < order.len() && j != i && #[trigger] depends(dependencies, order[j], order[i]) by {
        let tx = order[i];
        if !queue.contains(tx) && forall|j: int|
            0 <= j < order.len() && j != i ==> !#[trigger] depends(dependencies, order[j], order[i]) {
            let s = order.to_set().remove(tx);
            assert forall|x: usize, d: usize| #[trigger]
                s.contains(x) && #[trigger] deps_of(dependencies, x).contains(d) implies s.contains(
                d,
            ) by {
                assert(order.to_set().contains(x));
                assert(order.to_set().contains(d));
                let j = order.index_of(x);
                assert(order[j] == x);
                if d == tx {
                    assert(depends(dependencies, order[j], order[i]));
                }
            }
            assert(deps_closed(dependencies, s));
            assert forall|x: usize| queue.contains(x) implies s.contains(x) by {
                assert(order.contains(x));
                assert(order.to_set().contains(x));
            }
            assert(queue.subset_of(s));
            assert(order.contains(tx));
            assert(s.contains(tx));
        }
    }
}

/// If the transactions can be numbered so that each has a higher number than those it depends
/// on, each runs again behind every one that it depends on.
pub proof fn law_what_is_depended_on_runs_first(
    dependencies: Map<usize, Set<usize>>,
    queue: Set<usize>,
    order: Seq<usize>,
    rank: spec_fn(usize) -> nat,
    i: int,
    other: usize,
)
    requires
        is_reexecution_order(dependencies, queue, order),
        forall|tx: usize, d: usize| #[trigger] depends(dependencies, tx, d) ==> rank(d) < rank(tx),
        0 <= i < order.len(),
        depends(dependencies, order[i], other),
    ensures
        exists|j: int| 0 <= j < i && #[trigger] order[j] == other,
{
    assert forall|x: usize, d: usize| #[trigger]
        deps_of(dependencies, x).contains(d) implies rank(d) < rank(x) by {
        assert(depends(dependencies, x, d));
    }
    assert(crate::handler::dependencies::is_rank(dependencies, rank));
    assert(deps_of(dependencies, order[i]).contains(other));
    assert(stands_before(order, i, other));
    let j = order.take(i).index_of(other);
    assert(order[j] == other);
}

/// A dependency that is noted is found again, beside those noted before.
pub proof fn law_noted_dependencies_are_found(
    dependencies: Map<usize, Set<usize>>,
    from_tx: usize,
    to_tx: usize,
    tx: usize,
    other: usize,
)
    ensures
        deps_of(
            dependencies.insert(from_tx, deps_of(dependencies, from_tx).insert(to_tx)),
            tx,
        ).contains(other) <==> depends(dependencies, tx, other) || (tx == from_tx && other == to_tx),
{
}

/// An access that is noted is listed behind those noted before for the same slot or account.
pub proof fn law_noted_accesses_are_listed_in_turn<K>(
    lists: Map<K, Seq<usize>>,
    key: K,
    tx: usize,
)
    ensures
        lists.contains_key(key) ==> listed(lists, key).push(tx) == lists[key] + seq![tx],
        !lists.contains_key(key) ==> listed(lists, key).push(tx) == seq![tx],
{
    assert(listed(lists, key).push(tx) =~= if lists.contains_key(key) {
        lists[key] + seq![tx]
    } else {
        seq![tx]
    });
}

/// Whatever set of transactions holds those asked for, and with each one all that it depends
/// on, holds every transaction that runs again.
pub proof fn law_no_more_runs_again_than_has_to(
    dependencies: Map<usize, Set<usize>>,
    queue: Set<usize>,
    order: Seq<usize>,
    enough: Set<usize>,
    i: int,
)
    requires
        is_reexecution_order(dependencies, queue, order),
        forall|tx: usize| #[trigger] queue.contains(tx) ==> enough.contains(tx),
        forall|tx: usize, other: usize|
            enough.contains(tx) && #[trigger] depends(dependencies, tx, other) ==> enough.contains(
                other,
            ),
        0 <= i < order.len(),
    ensures
        enough.contains(order[i]),
{
    assert forall|x: usize, d: usize| #[trigger]
        enough.contains(x) && #[trigger] deps_of(dependencies, x).contains(
            d,
        ) implies enough.contains(d) by {
        assert(depends(dependencies, x, d));
    }
    assert(deps_closed(dependencies, enough));
    assert(queue.subset_of(enough));
    assert(order.contains(order[i]));
    assert(enough.contains(order[i]));
}

/// There are as many reports as transactions that some log gets in the way of.
pub proof fn law_no_report_is_lost<R>(
    logs: Seq<Option<LogView>>,
    results: Seq<(usize, R)>,
    reports: Seq<Conflict>,
)
    requires
        are_reports(logs, results, reports),
    ensures
        reports.len() == results.filter(
            |result: (usize, R)| is_blocked(logs, result.0 as int),
        ).len(),
{
    lemma_reports_len(logs, results, reports);
    law_how_many_are_in_conflict(logs, results);
}

} // verus!
