//! What the coordinator finds out about the transactions of a list, and when it runs one again.
use crate::coordinator::coordinator::{
    addresses_of, causes, collide, collides_later, collides_with_itself, first_collision,
    first_user, is_check, is_first_collision, missing, own_conflict, rerun, uses,
    CoordinatorView, ExecutionResult, TransactionCheck, CHECKPOINT_INTERVAL, MAX_HISTORY,
    PATTERN_TIMEOUT,
};
use crate::laws::logs::{acts_on, reads_slot, writes_slot};
use crate::parallel::conflict_detector::ConflictView;
use crate::parallel::operation_logs::{touches_slot, LogView, Operation};
use crate::primitives::{Address, U256};
use vstd::prelude::*;

verus! {

/// As many results are missing as there are transactions without one.
pub proof fn law_how_many_results_are_missing<R>(results: Seq<Option<ExecutionResult<R>>>)
    ensures
        missing(results) == results.filter(|r: Option<ExecutionResult<R>>| r is None).len(),
    decreases results.len(),
{
    reveal(Seq::filter);
    if results.len() > 0 {
        law_how_many_results_are_missing(results.drop_last());
    }
}

/// Whether a log can be read and holds an operation, of any kind, on an account.
pub open spec fn has_operation_on(log: Option<LogView>, account: Address) -> bool {
    log matches Some(l) && exists|k: int|
        0 <= k < l.operations.len() && acts_on(#[trigger] l.operations[k], account)
}

proof fn lemma_uses(operations: Seq<Operation>, account: Address)
    ensures
        uses(operations, account) <==> exists|k: int|
            0 <= k < operations.len() && acts_on(#[trigger] operations[k], account),
{
    assert forall|k: int| 0 <= k < operations.len() implies (
    crate::parallel::operation_logs::address_of(#[trigger] operations[k]) == account <==> acts_on(
        operations[k],
        account,
    )) by {
        crate::laws::logs::law_the_account_of_an_operation(operations[k], account);
    }
}

/// The accounts of some operations are those that one of them is on, whatever its kind.
pub proof fn law_the_accounts_of_operations(operations: Seq<Operation>, account: Address)
    ensures
        addresses_of(operations).contains(account) <==> exists|k: int|
            0 <= k < operations.len() && acts_on(#[trigger] operations[k], account),
{
    lemma_uses(operations, account);
}

/// The transaction found for an account is that of the first log that can be read and holds an
/// operation of any kind on it; none is found only where no such log holds one.
pub proof fn law_who_is_found_for_an_account(logs: Seq<Option<LogView>>, account: Address)
    ensures
        first_user(logs, account) is None <==> forall|i: int|
            0 <= i < logs.len() ==> !has_operation_on(#[trigger] logs[i], account),
        forall|i: int|
            0 <= i < logs.len() && has_operation_on(#[trigger] logs[i], account) && (forall|j: int|
                0 <= j < i ==> !has_operation_on(#[trigger] logs[j], account)) ==> first_user(
                logs,
                account,
            ) == Some(logs[i]->0.tx_index),
        first_user(logs, account) matches Some(tx) ==> exists|i: int|
            0 <= i < logs.len() && has_operation_on(#[trigger] logs[i], account)
                && logs[i]->0.tx_index == tx && (forall|j: int|
                0 <= j < i ==> !has_operation_on(#[trigger] logs[j], account)),
    decreases logs.len(),
{
    if logs.len() > 0 {
        let rest = logs.drop_last();
        let last = logs.len() - 1;
        law_who_is_found_for_an_account(rest, account);
        if logs.last() is Some {
            lemma_uses(logs.last()->0.operations, account);
        }
        assert forall|i: int| 0 <= i < rest.len() implies #[trigger] logs[i] == rest[i] by {}
        assert forall|i: int| 0 <= i < rest.len() implies #[trigger] rest[i] == logs[i] by {}
        assert(logs[last] == logs.last());
        if first_user(rest, account) is Some {
            let tx = first_user(rest, account)->0;
            let i = choose|i: int|
                0 <= i < rest.len() && has_operation_on(#[trigger] rest[i], account)
                    && rest[i]->0.tx_index == tx && (forall|j: int|
                    0 <= j < i ==> !has_operation_on(#[trigger] rest[j], account));
            assert(has_operation_on(logs[i], account));
            assert forall|j: int| 0 <= j < i implies !has_operation_on(
                #[trigger] logs[j],
                account,
            ) by {
                assert(!has_operation_on(rest[j], account));
            }
            assert forall|k: int|
                0 <= k < logs.len() && has_operation_on(#[trigger] logs[k], account) && (forall|
                    j: int,
                |
                    0 <= j < k ==> !has_operation_on(#[trigger] logs[j], account)) implies k == i by {
                if k < i {
                    assert(!has_operation_on(logs[k], account));
                }
            }
        } else {
            assert forall|j: int| 0 <= j < last implies !has_operation_on(
                #[trigger] logs[j],
                account,
            ) by {
                assert(!has_operation_on(rest[j], account));
            }
            if has_operation_on(logs[last], account) {
                assert forall|k: int|
                    0 <= k < logs.len() && has_operation_on(#[trigger] logs[k], account) implies k
                    == last by {}
            }
        }
    }
}

/// The log of a transaction is the one at its position in the list.
pub proof fn law_whose_log_is_whose<BLOCK, TX>(c: CoordinatorView<BLOCK, TX>, tx: usize)
    requires
        c.transactions.no_duplicates(),
    ensures
        forall|p: int|
            0 <= p < c.transactions.len() && #[trigger] c.transactions[p] == tx ==> c.log_of(tx)
                == c.logs[p],
        (forall|p: int| 0 <= p < c.transactions.len() ==> #[trigger] c.transactions[p] != tx)
            ==> c.log_of(tx) is None,
{
    if c.transactions.contains(tx) {
        let p = c.transactions.index_of(tx);
        assert(c.transactions[p] == tx);
    }
}

/// A transaction depends on another exactly if the other is the first of the list with an
/// operation on an account that is predicted from the accounts of its own operations. One
/// that is not in the list, or whose log cannot be read, depends on none.
pub proof fn law_what_a_transaction_depends_on<BLOCK, TX>(
    c: CoordinatorView<BLOCK, TX>,
    p: int,
    accounts: Set<Address>,
    other: usize,
)
    requires
        c.transactions.no_duplicates(),
        0 <= p < c.transactions.len(),
        forall|a: Address| #[trigger] accounts.contains(a) <==> has_operation_on(c.logs[p], a),
    ensures
        c.dependencies_of(c.transactions[p]).contains(other) <==> c.logs[p] is Some && exists|
            a: Address,
            i: int,
        |
            c.predictor.predicted(accounts).contains(a) && 0 <= i < c.logs.len()
                && #[trigger] has_operation_on(c.logs[i], a) && c.logs[i]->0.tx_index == other && (
            forall|j: int| 0 <= j < i ==> !has_operation_on(#[trigger] c.logs[j], a)),
        forall|tx: usize|
            !c.transactions.contains(tx) ==> !#[trigger] c.dependencies_of(tx).contains(other),
{
    law_whose_log_is_whose(c, c.transactions[p]);
    assert(c.transactions[p] == c.transactions[p]);
    if c.logs[p] is Some {
        let log = c.logs[p]->0;
        assert forall|a: Address| accounts.contains(a) <==> addresses_of(log.operations).contains(
            a,
        ) by {
            law_the_accounts_of_operations(log.operations, a);
        }
        assert(accounts =~= addresses_of(log.operations));
        if c.predicts(log, other) {
            let a = choose|a: Address| #[trigger]
                c.predictor.predicted(addresses_of(log.operations)).contains(a) && first_user(
                    c.logs,
                    a,
                ) == Some(other);
            law_who_is_found_for_an_account(c.logs, a);
        }
        if exists|a: Address, i: int|
            c.predictor.predicted(accounts).contains(a) && 0 <= i < c.logs.len()
                && #[trigger] has_operation_on(c.logs[i], a) && c.logs[i]->0.tx_index == other && (
            forall|j: int| 0 <= j < i ==> !has_operation_on(#[trigger] c.logs[j], a)) {
            let (a, i) = choose|a: Address, i: int|
                c.predictor.predicted(accounts).contains(a) && 0 <= i < c.logs.len()
                    && #[trigger] has_operation_on(c.logs[i], a) && c.logs[i]->0.tx_index == other
                    && (forall|j: int| 0 <= j < i ==> !has_operation_on(#[trigger] c.logs[j], a));
            law_who_is_found_for_an_account(c.logs, a);
            assert(c.predictor.predicted(addresses_of(log.operations)).contains(a));
        }
    }
}

/// Whether two operations are on one slot of one account and at least one writes it.
pub open spec fn meet_in_slot(a: Operation, b: Operation, account: Address, at: U256) -> bool {
    &&& reads_slot(a, account, at) || writes_slot(a, account, at)
    &&& reads_slot(b, account, at) || writes_slot(b, account, at)
    &&& writes_slot(a, account, at) || writes_slot(b, account, at)
}

/// Whether an operation meets a later one of the same transaction in a slot that one of them
/// writes.
pub open spec fn meets_a_later_one(operations: Seq<Operation>, i: int) -> bool {
    exists|j: int, account: Address, at: U256|
        i < j < operations.len() && #[trigger] meet_in_slot(
            operations[i],
            operations[j],
            account,
            at,
        )
}

proof fn lemma_collides_later(operations: Seq<Operation>, i: int)
    requires
        0 <= i < operations.len(),
    ensures
        collides_later(operations, i) <==> meets_a_later_one(operations, i),
{
    if collides_later(operations, i) {
        let j = choose|j: int|
            i < j < operations.len() && collide(operations[i], #[trigger] operations[j]);
        let key = choose|key: crate::primitives::StorageKey| #[trigger]
            touches_slot(operations[i], key) && touches_slot(operations[j], key) && (
            operations[i] is Write || operations[j] is Write);
        assert(meet_in_slot(operations[i], operations[j], key.0, key.1));
    }
    if meets_a_later_one(operations, i) {
        let (j, account, at) = choose|j: int, account: Address, at: U256|
            i < j < operations.len() && #[trigger] meet_in_slot(
                operations[i],
                operations[j],
                account,
                at,
            );
        assert(touches_slot(operations[i], (account, at)));
        assert(collide(operations[i], operations[j]));
    }
}

proof fn lemma_some_first_collision(operations: Seq<Operation>, i: int) -> (k: int)
    requires
        0 <= i < operations.len(),
        collides_later(operations, i),
    ensures
        is_first_collision(operations, k),
    decreases i,
{
    if exists|m: int| 0 <= m < i && #[trigger] collides_later(operations, m) {
        let m = choose|m: int| 0 <= m < i && #[trigger] collides_later(operations, m);
        lemma_some_first_collision(operations, m)
    } else {
        i
    }
}

/// Whether a transaction gets in its own way: one of its operations meets a later one.
pub open spec fn is_in_its_own_way(operations: Seq<Operation>) -> bool {
    exists|i: int| 0 <= i < operations.len() && #[trigger] meets_a_later_one(operations, i)
}

/// A transaction runs again because of its conflicts or, where it has none, because of the
/// first of its operations that meets a later one in a slot that one of them writes; then all
/// its operations run again. Where neither is so, none does.
pub proof fn law_why_a_transaction_runs_again(log: LogView, conflicts: Seq<ConflictView>)
    requires
        log.operations.len() <= usize::MAX,
    ensures
        conflicts.len() > 0 ==> causes(log, conflicts) == conflicts,
        conflicts.len() == 0 && !is_in_its_own_way(log.operations) ==> causes(log, conflicts).len()
            == 0,
        conflicts.len() > 0 || is_in_its_own_way(log.operations) ==> rerun(log, conflicts)
            == log.operations.len(),
        conflicts.len() == 0 && !is_in_its_own_way(log.operations) ==> rerun(log, conflicts) == 0,
        conflicts.len() == 0 && is_in_its_own_way(log.operations) ==> {
            &&& causes(log, conflicts).len() == 1
            &&& causes(log, conflicts)[0] matches ConflictView::OperationLevel {
                tx_index,
                op_index,
                address,
                slot,
            }
            &&& tx_index == log.tx_index
            &&& op_index < log.operations.len()
            &&& meets_a_later_one(log.operations, op_index as int)
            &&& forall|k: int|
                0 <= k < op_index ==> !#[trigger] meets_a_later_one(log.operations, k)
            &&& slot matches Some(at) && (reads_slot(
                log.operations[op_index as int],
                address,
                at,
            ) || writes_slot(log.operations[op_index as int], address, at))
        },
{
    let ops = log.operations;
    assert forall|i: int| 0 <= i < ops.len() implies (#[trigger] collides_later(ops, i)
        <==> meets_a_later_one(ops, i)) by {
        lemma_collides_later(ops, i);
    }
    assert forall|i: int| 0 <= i < ops.len() implies (#[trigger] meets_a_later_one(ops, i)
        <==> collides_later(ops, i)) by {
        lemma_collides_later(ops, i);
    }
    if is_in_its_own_way(ops) {
        let i = choose|i: int| 0 <= i < ops.len() && #[trigger] meets_a_later_one(ops, i);
        assert(collides_later(ops, i));
        let k = lemma_some_first_collision(ops, i);
        assert(is_first_collision(ops, first_collision(ops)));
        let first = first_collision(ops);
        assert(meets_a_later_one(ops, first));
        assert(collides_with_itself(ops));
        if conflicts.len() == 0 {
            assert(causes(log, conflicts)[0] == own_conflict(log, first));
        }
    }
    if collides_with_itself(ops) {
        let i = choose|i: int| 0 <= i < ops.len() && #[trigger] collides_later(ops, i);
        assert(meets_a_later_one(ops, i));
    }
}

/// A check counts the conflicts of a transaction and the operations that run again, and has a
/// plan exactly if some do. The plan has a point for each conflict, all on the version that the
/// check was made on, and each at a multiple of a hundred operations.
pub proof fn law_what_a_check_says(
    log: LogView,
    conflicts: Seq<ConflictView>,
    version: u64,
    check: TransactionCheck,
)
    requires
        is_check(log, conflicts, version, check),
        log.operations.len() <= usize::MAX,
    ensures
        check.conflicts_resolved == conflicts.len(),
        check.plan is Some <==> conflicts.len() > 0 || is_in_its_own_way(log.operations),
        check.operations_reexecuted == if conflicts.len() > 0 || is_in_its_own_way(
            log.operations,
        ) {
            log.operations.len()
        } else {
            0
        },
        check.plan matches Some(plan) ==> {
            &&& plan@.points.len() == (if conflicts.len() > 0 {
                conflicts.len()
            } else {
                1
            })
            &&& forall|i: int|
                0 <= i < plan@.points.len() ==> (#[trigger] plan@.points[i]).state_version
                    == version && plan@.points[i].op_index as int % 100 == 0
            &&& forall|i: int|
                0 <= i < conflicts.len() ==> (
                #[trigger] conflicts[i] matches ConflictView::OperationLevel {
                    tx_index,
                    op_index,
                    ..
                } ==> plan@.points[i].tx_index == tx_index && plan@.points[i].op_index <= op_index
                    < plan@.points[i].op_index + 100)
        },
{
    law_why_a_transaction_runs_again(log, conflicts);
    if check.plan is Some {
        let plan = check.plan->0;
        let reasons = causes(log, conflicts);
        assert forall|i: int| 0 <= i < plan@.points.len() implies (
        #[trigger] plan@.points[i]).state_version == version && plan@.points[i].op_index as int
            % 100 == 0 && (reasons[i] matches ConflictView::OperationLevel {
            tx_index,
            op_index,
            ..
        } ==> plan@.points[i].tx_index == tx_index && plan@.points[i].op_index <= op_index
            < plan@.points[i].op_index + 100) by {
            crate::laws::plans::law_from_where_a_plan_runs(reasons, CHECKPOINT_INTERVAL, i);
            crate::laws::plans::law_a_plan_on_a_version(
                crate::parallel::reexecution::plan_for(reasons, CHECKPOINT_INTERVAL),
                version,
                i,
            );
        }
    }
}

/// A check of a transaction leaves the state, the queue, the predictor, the logs and the list
/// as they are. If the transaction runs again its plan is remembered, under its index, and the
/// plans of the others stay; if it does not, no plan changes. Of a transaction whose log cannot
/// be read nothing is found and nothing changes.
pub proof fn law_what_a_check_changes<BLOCK, TX>(
    c: CoordinatorView<BLOCK, TX>,
    tx_idx: usize,
    check: TransactionCheck,
    after: CoordinatorView<BLOCK, TX>,
)
    requires
        c.checks_to(tx_idx, check, after),
    ensures
        after.state == c.state && after.scheduler == c.scheduler && after.predictor == c.predictor,
        after.logs == c.logs && after.contexts == c.contexts && after.transactions
            == c.transactions,
        after.max_parallel_txs == c.max_parallel_txs && after.batch_timeout == c.batch_timeout
            && after.max_retries == c.max_retries,
        after.detector.reads == c.detector.reads && after.detector.writes == c.detector.writes
            && after.detector.history == c.detector.history,
        check.plan is None ==> after.plans == c.plans,
        c.log_of(tx_idx) is None ==> check.plan is None && check.conflicts_resolved == 0
            && check.operations_reexecuted == 0 && after.detector == c.detector,
        check.plan matches Some(plan) ==> {
            let index = c.log_of(tx_idx)->0.tx_index;
            &&& after.plans.contains_key(index)
            &&& after.plans[index].points.len() == plan@.points.len()
            &&& forall|i: int|
                0 <= i < plan@.points.len() ==> (#[trigger] plan@.points[i]).tx_index
                    == after.plans[index].points[i].tx_index && plan@.points[i].op_index
                    == after.plans[index].points[i].op_index && plan@.points[i].state_version
                    == c.state.current
            &&& after.plans[index].addresses == plan@.addresses && after.plans[index].slots
                == plan@.slots
            &&& forall|t: usize|
                t != index ==> (#[trigger] after.plans.contains_key(t) <==> c.plans.contains_key(t))
            &&& forall|t: usize|
                t != index && c.plans.contains_key(t) ==> #[trigger] after.plans[t] == c.plans[t]
        },
{
}

/// What is analysed of a batch is what its transactions did, one after the other; one whose
/// log cannot be read adds nothing.
pub proof fn law_a_batch_is_analysed_in_turn<BLOCK, TX>(
    c: CoordinatorView<BLOCK, TX>,
    batch: Seq<usize>,
    p: int,
)
    requires
        c.transactions.no_duplicates(),
        0 <= p < c.transactions.len(),
    ensures
        c.detector_after(Seq::empty()) == c.detector,
        c.detector_after(batch.push(c.transactions[p])) == match c.logs[p] {
            Some(log) => c.detector_after(batch).analyzed(log.tx_index, log.operations),
            None => c.detector_after(batch),
        },
{
    let longer = batch.push(c.transactions[p]);
    assert(longer.drop_last() =~= batch);
    law_whose_log_is_whose(c, c.transactions[p]);
    assert(c.transactions[p] == longer.last());
}

/// The predictor learns the operations of a transaction exactly if its outcome had conflicts
/// and its log can be read.
pub proof fn law_only_conflicts_are_learned_from<BLOCK, TX, R>(
    c: CoordinatorView<BLOCK, TX>,
    outcomes: Seq<(usize, ExecutionResult<R>)>,
    p: int,
    result: ExecutionResult<R>,
    now: u64,
)
    requires
        c.transactions.no_duplicates(),
        0 <= p < c.transactions.len(),
    ensures
        c.predictor_after(Seq::<(usize, ExecutionResult<R>)>::empty(), now) == c.predictor,
        ({
            let before = c.predictor_after(outcomes, now);
            let after = c.predictor_after(outcomes.push((c.transactions[p], result)), now);
            &&& c.logs[p] is Some && result.conflicts_resolved > 0 ==> after
                == before.learned_all(c.logs[p]->0.operations, result.gas_used, now)
            &&& c.logs[p] is None || result.conflicts_resolved == 0 ==> after == before
        }),
{
    let longer = outcomes.push((c.transactions[p], result));
    assert(longer.drop_last() =~= outcomes);
    assert(longer.last() == (c.transactions[p], result));
    law_whose_log_is_whose(c, c.transactions[p]);
    assert(c.transactions[p] == longer.last().0);
}

/// A transaction has the last of the results that came for it, or the one it had before if
/// none came.
pub proof fn law_which_result_a_transaction_has<BLOCK, TX, R>(
    c: CoordinatorView<BLOCK, TX>,
    results: Seq<Option<ExecutionResult<R>>>,
    outcomes: Seq<(usize, ExecutionResult<R>)>,
    p: int,
)
    requires
        c.transactions.no_duplicates(),
        results.len() == c.transactions.len(),
        forall|k: int|
            0 <= k < outcomes.len() ==> c.transactions.contains((#[trigger] outcomes[k]).0),
        0 <= p < c.transactions.len(),
    ensures
        c.results_after(results, outcomes).len() == results.len(),
        forall|k: int|
            0 <= k < outcomes.len() && (#[trigger] outcomes[k]).0 == c.transactions[p] && (forall|
                m: int,
            |
                k < m < outcomes.len() ==> (#[trigger] outcomes[m]).0 != c.transactions[p])
                ==> c.results_after(results, outcomes)[p] == Some(outcomes[k].1),
        (forall|k: int|
            0 <= k < outcomes.len() ==> (#[trigger] outcomes[k]).0 != c.transactions[p])
            ==> c.results_after(results, outcomes)[p] == results[p],
    decreases outcomes.len(),
{
    if outcomes.len() > 0 {
        let rest = outcomes.drop_last();
        let last = outcomes.len() - 1;
        assert forall|k: int| 0 <= k < rest.len() implies #[trigger] rest[k] == outcomes[k] by {}
        law_which_result_a_transaction_has(c, results, rest, p);
        assert(outcomes[last] == outcomes.last());
        let q = c.transactions.index_of(outcomes.last().0);
        assert(c.transactions.contains(outcomes[last].0));
        assert(c.transactions[q] == outcomes.last().0);
        assert forall|k: int|
            0 <= k < outcomes.len() && (#[trigger] outcomes[k]).0 == c.transactions[p] && (forall|
                m: int,
            |
                k < m < outcomes.len() ==> (#[trigger] outcomes[m]).0
                    != c.transactions[p]) implies c.results_after(results, outcomes)[p] == Some(
            outcomes[k].1,
        ) by {
            if k < last {
                assert(outcomes[last].0 != c.transactions[p]);
                assert(rest[k].0 == c.transactions[p]);
                assert forall|m: int| k < m < rest.len() implies (#[trigger] rest[m]).0
                    != c.transactions[p] by {
                    assert(outcomes[m].0 != c.transactions[p]);
                }
            } else {
                assert(p == q);
            }
        }
    }
}

/// Patterns are forgotten after an hour, in nanoseconds; a thousand transactions are
/// remembered; checkpoints are a hundred operations apart.
pub proof fn law_the_settings()
    ensures
        PATTERN_TIMEOUT == 60 * 60 * 1_000_000_000,
        MAX_HISTORY == 1000,
        CHECKPOINT_INTERVAL == 100,
{
}

/// Every transaction of a batch is checked once, in the order of the batch, and all checks
/// together leave the state, the queue, the predictor, the logs and the list as they were.
pub proof fn law_every_transaction_of_a_batch_is_checked<BLOCK, TX>(
    c: CoordinatorView<BLOCK, TX>,
    batch: Seq<usize>,
    checks: Seq<(usize, TransactionCheck)>,
    stages: Seq<CoordinatorView<BLOCK, TX>>,
    i: int,
)
    requires
        c.shown(batch).are_stages(batch, checks, stages),
        0 <= i <= batch.len(),
    ensures
        checks.len() == batch.len(),
        stages.len() == batch.len() + 1,
        i < batch.len() ==> checks[i].0 == batch[i] && stages[i].checks_to(
            batch[i],
            checks[i].1,
            stages[i + 1],
        ),
        stages[i].state == c.state && stages[i].scheduler == c.scheduler && stages[i].predictor
            == c.predictor,
        stages[i].logs == c.logs && stages[i].transactions == c.transactions,
        stages[i].detector.reads == c.detector_after(batch).reads,
        stages[i].detector.writes == c.detector_after(batch).writes,
        stages[i].detector.history == c.detector_after(batch).history,
    decreases i,
{
    if i < batch.len() {
        assert(checks[i].0 == batch[i]);
    }
    if i > 0 {
        law_every_transaction_of_a_batch_is_checked(c, batch, checks, stages, i - 1);
        law_what_a_check_changes(stages[i - 1], batch[i - 1], checks[i - 1].1, stages[i]);
    }
}

} // verus!
