//! From where a transaction runs again, and what a run on conflicting accounts goes through.
use crate::coordinator::reexecution::{
    conflict_addresses, law_a_run_goes_through_everything_in_order, resolution, AccessConflict,
    AccessKind, ContextAction, ContextEvent, ContextRun, Phase, ReexecutionContext,
};
use crate::db::versioned::{StateView, VersionedStateDBError};
use crate::parallel::conflict_detector::ConflictView;
use crate::parallel::reexecution::{bare_point, plan_for, step_of, PlanView, ReexecutionStep};
use crate::primitives::{Address, U256};
use vstd::prelude::*;

verus! {

/// A plan has one point for each conflict. An operation-level conflict is run again from the
/// last checkpoint at or before the operation that it names, where checkpoints are a fixed
/// number of operations apart; a transaction-level one from the start of the earlier of the
/// two transactions.
pub proof fn law_from_where_a_plan_runs(
    conflicts: Seq<ConflictView>,
    interval: usize,
    i: int,
)
    requires
        interval > 0,
        0 <= i < conflicts.len(),
    ensures
        plan_for(conflicts, interval).points.len() == conflicts.len(),
        plan_for(conflicts, interval).estimated_gas == 0,
        ({
            let point = plan_for(conflicts, interval).points[i];
            &&& point.state_version == 0 && point.gas_used == 0
            &&& point.stack.len() == 0 && point.memory.len() == 0
            &&& conflicts[i] matches ConflictView::OperationLevel { tx_index, op_index, .. } ==> {
                &&& point.tx_index == tx_index
                &&& point.op_index as int % interval as int == 0
                &&& point.op_index <= op_index < point.op_index + interval
            }
            &&& conflicts[i] matches ConflictView::TransactionLevel { tx1_index, tx2_index, .. }
                ==> {
                &&& point.op_index == 0
                &&& point.tx_index <= tx1_index && point.tx_index <= tx2_index
                &&& point.tx_index == tx1_index || point.tx_index == tx2_index
            }
        }),
{
    if let ConflictView::OperationLevel { op_index, .. } = conflicts[i] {
        let x = op_index as int;
        let d = interval as int;
        vstd::arithmetic::div_mod::lemma_fundamental_div_mod(x, d);
        vstd::arithmetic::div_mod::lemma_mod_multiples_basic(x / d, d);
        vstd::arithmetic::mul::lemma_mul_is_commutative(x / d, d);
        vstd::arithmetic::div_mod::lemma_mod_bound(x, d);
        vstd::arithmetic::div_mod::lemma_mod_decreases(op_index as nat, interval as nat);
        assert(x - x % d == (x / d) * d);
    }
}

/// A plan affects the accounts and the slots that its conflicts name, and no others.
pub proof fn law_what_a_plan_affects(
    conflicts: Seq<ConflictView>,
    interval: usize,
    account: Address,
    at: U256,
)
    ensures
        plan_for(conflicts, interval).addresses.contains(account) <==> exists|i: int|
            0 <= i < conflicts.len() && match #[trigger] conflicts[i] {
                ConflictView::OperationLevel { address, .. } => address == account,
                ConflictView::TransactionLevel { addresses, .. } => addresses.contains(account),
            },
        plan_for(conflicts, interval).slots.contains((account, at)) <==> exists|i: int|
            0 <= i < conflicts.len() && (
            #[trigger] conflicts[i] matches ConflictView::OperationLevel { address, slot, .. }
                && address == account && slot == Some(at)),
{
    let plan = plan_for(conflicts, interval);
    if plan.addresses.contains(account) {
        let i = choose|i: int|
            0 <= i < conflicts.len() && crate::parallel::reexecution::concerns_address(
                #[trigger] conflicts[i],
                account,
            );
        assert(conflicts[i] == conflicts[i]);
    }
    if plan.slots.contains((account, at)) {
        let i = choose|i: int|
            0 <= i < conflicts.len() && crate::parallel::reexecution::concerns_slot(
                #[trigger] conflicts[i],
                (account, at),
            );
        assert(conflicts[i] == conflicts[i]);
    }
    if exists|i: int|
        0 <= i < conflicts.len() && match #[trigger] conflicts[i] {
            ConflictView::OperationLevel { address, .. } => address == account,
            ConflictView::TransactionLevel { addresses, .. } => addresses.contains(account),
        } {
        let i = choose|i: int|
            0 <= i < conflicts.len() && match #[trigger] conflicts[i] {
                ConflictView::OperationLevel { address, .. } => address == account,
                ConflictView::TransactionLevel { addresses, .. } => addresses.contains(account),
            };
        assert(crate::parallel::reexecution::concerns_address(conflicts[i], account));
    }
    if exists|i: int|
        0 <= i < conflicts.len() && (
        #[trigger] conflicts[i] matches ConflictView::OperationLevel { address, slot, .. }
            && address == account && slot == Some(at)) {
        let i = choose|i: int|
            0 <= i < conflicts.len() && (
            #[trigger] conflicts[i] matches ConflictView::OperationLevel { address, slot, .. }
                && address == account && slot == Some(at));
        assert(crate::parallel::reexecution::concerns_slot(conflicts[i], (account, at)));
    }
}

/// A plan put on a version has every point on it and is otherwise the same.
pub proof fn law_a_plan_on_a_version(plan: PlanView, version: u64, i: int)
    requires
        0 <= i < plan.points.len(),
    ensures
        plan.on_version(version).points.len() == plan.points.len(),
        plan.on_version(version).points[i].state_version == version,
        plan.on_version(version).points[i].tx_index == plan.points[i].tx_index,
        plan.on_version(version).points[i].op_index == plan.points[i].op_index,
        plan.on_version(version).points[i].gas_used == plan.points[i].gas_used,
        plan.on_version(version).points[i].stack == plan.points[i].stack,
        plan.on_version(version).points[i].memory == plan.points[i].memory,
        plan.on_version(version).addresses == plan.addresses,
        plan.on_version(version).slots == plan.slots,
        plan.on_version(version).estimated_gas == plan.estimated_gas,
{
}

/// A step of a plan puts a new version on top. If points are left, the transaction runs from
/// the operation of the next one, on its version, which has to be there; if none is left, the
/// plan is finished.
pub proof fn law_what_a_step_does(
    state: StateView,
    tx_index: usize,
    plan: PlanView,
    done: usize,
)
    requires
        state.current < u64::MAX,
    ensures
        ({
            let (step, after) = step_of(state, tx_index, plan, done);
            let point = plan.points[done as int];
            &&& step is Finished <==> done >= plan.points.len()
            &&& done < plan.points.len() && (state.versions.contains_key(point.state_version)
                || point.state_version == state.current + 1) ==> step == (
            ReexecutionStep::Execute { tx_index, op_index: point.op_index }) && after.current
                == point.state_version
            &&& done < plan.points.len() && !(state.versions.contains_key(point.state_version)
                || point.state_version == state.current + 1) ==> step == ReexecutionStep::Failed(
                VersionedStateDBError::VersionNotFound(point.state_version),
            ) && after.current == state.current + 1
            &&& done >= plan.points.len() ==> after.current == state.current + 1
            &&& after.versions == state.snapshot().versions
            &&& after.metadata == state.metadata
        }),
{
}

/// The accounts to verify are those that the conflicts name, whatever the kind of each.
pub proof fn law_the_accounts_of_conflicts(conflicts: Seq<AccessConflict>, account: Address)
    ensures
        conflict_addresses(conflicts).contains(account) <==> exists|i: int|
            0 <= i < conflicts.len() && (#[trigger] conflicts[i]).address == account,
{
    let addresses = conflicts.map_values(|conflict: AccessConflict| conflict.address);
    if conflict_addresses(conflicts).contains(account) {
        let i = addresses.index_of(account);
        assert(conflicts[i].address == account);
    }
    if exists|i: int| 0 <= i < conflicts.len() && (#[trigger] conflicts[i]).address == account {
        let i = choose|i: int|
            0 <= i < conflicts.len() && (#[trigger] conflicts[i]).address == account;
        assert(addresses[i] == account);
    }
}

/// Whether an action leaves nothing to answer.
pub open spec fn is_last<E>(action: ContextAction<E>) -> bool {
    action is Accept || action is RejectAndRevert || action is FailAndRevert || action is Fail
}

/// Whether the actions and the runs are those of a re-execution: it starts with the first
/// action, and each further one is the reaction to the answer to the one before, as long as
/// that one can be answered.
pub open spec fn is_run<E>(
    context: ReexecutionContext,
    actions: Seq<ContextAction<E>>,
    runs: Seq<ContextRun>,
    events: Seq<ContextEvent<E>>,
) -> bool {
    &&& actions.len() > 0
    &&& runs.len() == actions.len()
    &&& events.len() == actions.len() - 1
    &&& runs[0].phase == context.after_actions(0)
    &&& actions[0] == context.action::<E>(runs[0])
    &&& forall|t: int|
        0 <= t < events.len() ==> !is_last(actions[t]) && (actions[t + 1], runs[t + 1])
            == #[trigger] context.react(runs[t], events[t])
}

proof fn lemma_run<E>(
    context: ReexecutionContext,
    actions: Seq<ContextAction<E>>,
    runs: Seq<ContextRun>,
    events: Seq<ContextEvent<E>>,
    t: int,
)
    requires
        is_run(context, actions, runs, events),
        0 <= t < actions.len(),
        actions.last() is Accept,
    ensures
        runs[t].phase == context.after_actions(t as nat),
        runs[t].version == runs[0].version,
        actions[t] == context.action::<E>(runs[t]),
        t < events.len() ==> events[t] is Done,
    decreases t,
{
    if t > 0 {
        lemma_run(context, actions, runs, events, t - 1);
        assert((actions[t], runs[t]) == context.react(runs[t - 1], events[t - 1]));
    }
    if t < events.len() {
        assert((actions[t + 1], runs[t + 1]) == context.react(runs[t], events[t]));
        if !(events[t] is Done) {
            assert(is_last(actions[t + 1]));
            if t + 1 < events.len() {
                assert((actions[t + 2], runs[t + 2]) == context.react(runs[t + 1], events[t + 1]));
            }
            assert(actions[t + 1] == actions.last());
        }
    }
}

/// A re-execution that is accepted resolved every conflict in turn, as its kind asks, then
/// executed the transaction once, then found the account of every conflict consistent,
/// whatever its kind; it verified no other account, and every answer was that all went well.
pub proof fn law_an_accepted_run_verified_every_conflict<E>(
    context: ReexecutionContext,
    actions: Seq<ContextAction<E>>,
    runs: Seq<ContextRun>,
    events: Seq<ContextEvent<E>>,
    i: int,
)
    requires
        context.modified_addresses@ == conflict_addresses(context.conflicts@),
        context.conflicts@.len() <= usize::MAX,
        context.modified_addresses.order().len() <= usize::MAX,
        is_run(context, actions, runs, events),
        actions.last() is Accept,
        0 <= i < context.conflicts@.len(),
    ensures
        context.conflicts@.len() < events.len(),
        actions[i] == match context.conflicts@[i].conflict_type {
            AccessKind::Read => ContextAction::<E>::EnsureLatestState {
                address: context.conflicts@[i].address,
                version: runs[0].version,
            },
            AccessKind::Write => ContextAction::<E>::MergeStates {
                address: context.conflicts@[i].address,
                from_version: context.conflicts@[i].from_version,
                version: runs[0].version,
            },
            AccessKind::Account => ContextAction::<E>::SyncAccountState {
                address: context.conflicts@[i].address,
                version: runs[0].version,
            },
        },
        forall|t: int|
            0 <= t < actions.len() ==> (#[trigger] actions[t] is Transact <==> t
                == context.conflicts@.len()),
        exists|t: int|
            context.conflicts@.len() < t < events.len() && #[trigger] actions[t] == (
            ContextAction::<E>::VerifyStateConsistency {
                address: context.conflicts@[i].address,
                version: runs[0].version,
            }),
        forall|t: int|
            0 <= t < actions.len() ==> (
            #[trigger] actions[t] matches ContextAction::VerifyStateConsistency { address, .. }
                ==> exists|c: int|
                0 <= c < context.conflicts@.len() && (#[trigger] context.conflicts@[c]).address
                    == address),
        forall|t: int| 0 <= t < events.len() ==> #[trigger] events[t] is Done,
{
    let n = context.conflicts@.len() as int;
    let order = context.modified_addresses.order();
    let end = actions.len() - 1;
    assert forall|t: int| 0 <= t < actions.len() implies {
        &&& runs[t].phase == context.after_actions(t as nat)
        &&& runs[t].version == runs[0].version
        &&& #[trigger] actions[t] == context.action::<E>(runs[t])
        &&& runs[t].phase == if t < n {
            Phase::Resolve(t as usize)
        } else if t == n {
            Phase::Transact
        } else if t - n - 1 < order.len() {
            Phase::Verify((t - n - 1) as usize)
        } else {
            Phase::Over
        }
    } by {
        lemma_run(context, actions, runs, events, t);
        law_a_run_goes_through_everything_in_order(context, t as nat);
    }
    assert forall|t: int| 0 <= t < events.len() implies #[trigger] events[t] is Done by {
        lemma_run(context, actions, runs, events, t);
    }
    assert(actions[end] is Accept);
    assert(end > n + order.len());
    assert(actions[i] == context.action::<E>(runs[i]));
    let address = context.conflicts@[i].address;
    law_the_accounts_of_conflicts(context.conflicts@, address);
    assert(order.to_set().contains(address));
    let k = order.index_of(address);
    assert(actions[n + 1 + k] == (ContextAction::<E>::VerifyStateConsistency {
        address,
        version: runs[0].version,
    }));
    assert forall|t: int| 0 <= t < actions.len() implies (
    #[trigger] actions[t] matches ContextAction::VerifyStateConsistency { address, .. } ==> exists|
        c: int,
    |
        0 <= c < context.conflicts@.len() && (#[trigger] context.conflicts@[c]).address
            == address) by {
        if let ContextAction::VerifyStateConsistency { address, .. } = actions[t] {
            let k = t - n - 1;
            assert(order[k] == address);
            assert(order.to_set().contains(address));
            law_the_accounts_of_conflicts(context.conflicts@, address);
        }
    }
}

/// Every kind of conflict has its own way to be resolved, on the account that it names.
pub proof fn law_how_a_conflict_is_resolved<E>(conflict: AccessConflict, version: u64)
    ensures
        conflict.conflict_type is Read ==> resolution::<E>(conflict, version) == (
        ContextAction::<E>::EnsureLatestState { address: conflict.address, version }),
        conflict.conflict_type is Write ==> resolution::<E>(conflict, version) == (
        ContextAction::<E>::MergeStates {
            address: conflict.address,
            from_version: conflict.from_version,
            version,
        }),
        conflict.conflict_type is Account ==> resolution::<E>(conflict, version) == (
        ContextAction::<E>::SyncAccountState { address: conflict.address, version }),
{
}

/// Where an account is found inconsistent the version is taken back and the result rejected;
/// where the execution itself fails the version is taken back with its error; where anything
/// else fails the run fails with its error.
pub proof fn law_how_a_run_ends_early<E>(
    context: ReexecutionContext,
    run: ContextRun,
    error: E,
)
    ensures
        context.react(run, ContextEvent::<E>::Inconsistent).0 == (
        ContextAction::<E>::RejectAndRevert { version: run.version }),
        run.phase is Transact ==> context.react(run, ContextEvent::Failed { error }).0 == (
        ContextAction::FailAndRevert { version: run.version, error }),
        !(run.phase is Transact) ==> context.react(run, ContextEvent::Failed { error }).0 == (
        ContextAction::Fail { error }),
        context.react(run, ContextEvent::<E>::Inconsistent).1.phase is Over,
        context.react(run, ContextEvent::Failed { error }).1.phase is Over,
{
}

/// A point that was made without a conflict is at the operation asked for, with nothing
/// captured.
pub proof fn law_a_new_point_is_bare(tx_index: usize, op_index: usize)
    ensures
        ({
            let point = bare_point(tx_index, op_index);
            &&& point.tx_index == tx_index && point.op_index == op_index
            &&& point.state_version == 0 && point.gas_used == 0
            &&& point.stack.len() == 0 && point.memory.len() == 0
        }),
{
}

} // verus!
