//! Runs a whole transaction again after its conflicts were resolved in the state, and
//! takes the result only if the state turns out consistent.
//!
//! What has to be done to the state and with the transaction is up to the caller, who
//! is told one action after the other and answers how it went.
use crate::collections::KeySet;
use crate::coordinator::coordinator::ExecutionResult;
use crate::db::versioned::VersionedStateDB;
use crate::parallel::operation_logs::{Operation, OperationLog};
use crate::parallel::reexecution::PartialReexecutor;
use crate::primitives::Address;
use vstd::prelude::*;

verus! {

/// What kind of access a conflict is about.
#[derive(Clone, Copy, Debug, PartialEq, Eq, Structural)]
pub enum AccessKind {
    Read,
    Write,
    Account,
}

/// A conflict about an account, with the version that it comes from.
#[derive(Clone, Copy, Debug, PartialEq, Eq, Structural)]
pub struct AccessConflict {
    pub address: Address,
    pub conflict_type: AccessKind,
    pub from_version: u64,
}

/// What is needed to run a transaction again.
#[derive(Debug)]
pub struct ReexecutionContext {
    pub tx_idx: usize,
    pub conflicts: Vec<AccessConflict>,
    pub original_operations: Vec<Operation>,
    pub modified_addresses: KeySet<Address>,
}

/// The accounts that some conflicts are about.
pub open spec fn conflict_addresses(conflicts: Seq<AccessConflict>) -> Set<Address> {
    conflicts.map_values(|conflict: AccessConflict| conflict.address).to_set()
}

/// Where a run stands.
#[derive(Clone, Copy, Debug, PartialEq, Eq, Structural)]
pub enum Phase {
    /// The conflict at this position is being resolved.
    Resolve(usize),
    /// The transaction is being executed.
    Transact,
    /// The account at this position is being verified.
    Verify(usize),
    /// There is nothing left to do.
    Over,
}

/// A run on its own version of the state.
#[derive(Clone, Copy, Debug, PartialEq, Eq, Structural)]
pub struct ContextRun {
    pub version: u64,
    pub phase: Phase,
}

/// What the caller has to do.
#[derive(Debug)]
pub enum ContextAction<E> {
    /// See to it that the account has its latest state.
    EnsureLatestState { address: Address, version: u64 },
    /// Merge what another version has of the account.
    MergeStates { address: Address, from_version: u64, version: u64 },
    /// Bring the account itself up to date.
    SyncAccountState { address: Address, version: u64 },
    /// Execute the transaction.
    Transact,
    /// Say whether the state of the account is consistent.
    VerifyStateConsistency { address: Address, version: u64 },
    /// The result of the execution stands.
    Accept,
    /// Take the version back, because an account is not consistent.
    RejectAndRevert { version: u64 },
    /// Take the version back, because the execution failed.
    FailAndRevert { version: u64, error: E },
    /// Give up, because the state could not be worked on.
    Fail { error: E },
}

/// How the last action went.
#[derive(Debug)]
pub enum ContextEvent<E> {
    Done,
    Inconsistent,
    Failed { error: E },
}

/// What resolves a conflict.
pub open spec fn resolution<E>(conflict: AccessConflict, version: u64) -> ContextAction<E> {
    match conflict.conflict_type {
        AccessKind::Read => ContextAction::EnsureLatestState { address: conflict.address, version },
        AccessKind::Write => ContextAction::MergeStates {
            address: conflict.address,
            from_version: conflict.from_version,
            version,
        },
        AccessKind::Account => ContextAction::SyncAccountState {
            address: conflict.address,
            version,
        },
    }
}

impl ReexecutionContext {
    pub open spec fn wf(self) -> bool {
        self.modified_addresses.wf()
    }

    /// Where a run goes on that comes to the conflicts with `k` of them resolved.
    pub open spec fn from_conflict(self, k: int) -> Phase {
        if k < self.conflicts@.len() {
            Phase::Resolve(k as usize)
        } else {
            Phase::Transact
        }
    }

    /// Where a run goes on that comes to the accounts with `k` of them verified.
    pub open spec fn from_address(self, k: int) -> Phase {
        if k < self.modified_addresses.order().len() {
            Phase::Verify(k as usize)
        } else {
            Phase::Over
        }
    }

    /// Where a run stands after an action went well.
    pub open spec fn after(self, phase: Phase) -> Phase {
        match phase {
            Phase::Resolve(k) => self.from_conflict(k + 1),
            Phase::Transact => self.from_address(0),
            Phase::Verify(k) => self.from_address(k + 1),
            Phase::Over => Phase::Over,
        }
    }

    /// What to do where a run stands.
    pub open spec fn action<E>(self, run: ContextRun) -> ContextAction<E> {
        match run.phase {
            Phase::Resolve(k) => resolution(self.conflicts@[k as int], run.version),
            Phase::Transact => ContextAction::Transact,
            Phase::Verify(k) => ContextAction::VerifyStateConsistency {
                address: self.modified_addresses.order()[k as int],
                version: run.version,
            },
            Phase::Over => ContextAction::Accept,
        }
    }

    /// Whether a run stands somewhere in this context.
    pub open spec fn holds(self, run: ContextRun) -> bool {
        match run.phase {
            Phase::Resolve(k) => k < self.conflicts@.len(),
            Phase::Verify(k) => k < self.modified_addresses.order().len(),
            _ => true,
        }
    }

    /// What to do next, and where the run stands then.
    pub open spec fn react<E>(self, run: ContextRun, event: ContextEvent<E>) -> (
        ContextAction<E>,
        ContextRun,
    ) {
        match event {
            ContextEvent::Done => {
                let next = ContextRun { phase: self.after(run.phase), ..run };
                (self.action(next), next)
            },
            ContextEvent::Inconsistent => (
                ContextAction::RejectAndRevert { version: run.version },
                ContextRun { phase: Phase::Over, ..run },
            ),
            ContextEvent::Failed { error } => (
                if run.phase == Phase::Transact {
                    ContextAction::FailAndRevert { version: run.version, error }
                } else {
                    ContextAction::Fail { error }
                },
                ContextRun { phase: Phase::Over, ..run },
            ),
        }
    }

    /// Where a run stands after its first `count` actions went well.
    pub open spec fn after_actions(self, count: nat) -> Phase
        decreases count,
    {
        if count == 0 {
            self.from_conflict(0)
        } else {
            self.after(self.after_actions((count - 1) as nat))
        }
    }
}

impl PartialReexecutor {
    /// Gathers what is needed to run a transaction again.
    pub fn prepare_reexecution_context<'a, BLOCK, TX>(
        &self,
        tx_idx: usize,
        conflicts: &Vec<AccessConflict>,
        operation_log: &OperationLog<'a, BLOCK, TX>,
    ) -> (r: ReexecutionContext)
        ensures
            r.wf(),
            r.tx_idx == tx_idx,
            r.conflicts@ == conflicts@,
            r.original_operations@ == operation_log@.operations,
            r.modified_addresses@ == conflict_addresses(conflicts@),
    {
        let mut modified_addresses: KeySet<Address> = KeySet::new();
        let mut copied: Vec<AccessConflict> = Vec::new();
        let n: usize = conflicts.len();
        assert(conflict_addresses(conflicts@.take(0)) =~= Set::<Address>::empty());
        for i in 0..n
            invariant
                n == conflicts@.len(),
                copied@ == conflicts@.take(i as int),
                modified_addresses.wf(),
                modified_addresses@ == conflict_addresses(conflicts@.take(i as int)),
        {
            modified_addresses.insert(conflicts[i].address);
            copied.push(conflicts[i]);
            proof {
                let address_of_conflict = |conflict: AccessConflict| conflict.address;
                let before = conflicts@.take(i as int);
                let after = conflicts@.take(i + 1);
                assert(after =~= before.push(conflicts@[i as int]));
                assert(after.map_values(address_of_conflict) =~= before.map_values(
                    address_of_conflict,
                ).push(conflicts@[i as int].address));
                before.map_values(address_of_conflict).lemma_push_to_set_commute(
                    conflicts@[i as int].address,
                );
            }
        }
        assert(conflicts@.take(n as int) =~= conflicts@);
        let operations = operation_log.operations();
        let mut original_operations: Vec<Operation> = Vec::new();
        let m: usize = operations.len();
        for i in 0..m
            invariant
                m == operations@.len(),
                original_operations@ == operations@.take(i as int),
        {
            original_operations.push(operations[i]);
            assert(operations@.take(i + 1) =~= operations@.take(i as int).push(
                operations@[i as int],
            ));
        }
        assert(operations@.take(m as int) =~= operations@);
        ReexecutionContext { tx_idx, conflicts: copied, original_operations, modified_addresses }
    }

    /// Starts a run on a fresh version of the state and tells what to do first.
    pub fn begin_context<E>(&self, db: &mut VersionedStateDB, context: &ReexecutionContext) -> (r: (
        ContextAction<E>,
        ContextRun,
    ))
        requires
            context.wf(),
            old(db).wf(),
            old(db)@.current < u64::MAX,
        ensures
            final(db).wf(),
            final(db)@ == old(db)@.snapshot(),
            r.1.version == old(db)@.current + 1,
            r.1.phase == context.after_actions(0),
            context.holds(r.1),
            r.0 == context.action::<E>(r.1),
    {
        let version = db.create_snapshot();
        let phase = if context.conflicts.len() > 0 {
            Phase::Resolve(0)
        } else {
            Phase::Transact
        };
        let run = ContextRun { version, phase };
        (self.context_action(context, run), run)
    }

    /// Takes the answer to the last action and tells what to do next.
    pub fn reexecute_context<E>(
        &self,
        context: &ReexecutionContext,
        run: ContextRun,
        event: ContextEvent<E>,
    ) -> (r: (ContextAction<E>, ContextRun))
        requires
            context.wf(),
            context.holds(run),
        ensures
            r == context.react(run, event),
            context.holds(r.1),
    {
        match event {
            ContextEvent::Done => {
                let conflicts: usize = context.conflicts.len();
                let addresses: usize = context.modified_addresses.len();
                let phase = match run.phase {
                    Phase::Resolve(k) => if k < conflicts - 1 {
                        Phase::Resolve(k + 1)
                    } else {
                        Phase::Transact
                    },
                    Phase::Transact => if addresses > 0 {
                        Phase::Verify(0)
                    } else {
                        Phase::Over
                    },
                    Phase::Verify(k) => if k < addresses - 1 {
                        Phase::Verify(k + 1)
                    } else {
                        Phase::Over
                    },
                    Phase::Over => Phase::Over,
                };
                let next = ContextRun { version: run.version, phase };
                (self.context_action(context, next), next)
            },
            ContextEvent::Inconsistent => (
                ContextAction::RejectAndRevert { version: run.version },
                ContextRun { version: run.version, phase: Phase::Over },
            ),
            ContextEvent::Failed { error } => {
                let over = ContextRun { version: run.version, phase: Phase::Over };
                match run.phase {
                    Phase::Transact => (
                        ContextAction::FailAndRevert { version: run.version, error },
                        over,
                    ),
                    _ => (ContextAction::Fail { error }, over),
                }
            },
        }
    }

    fn context_action<E>(&self, context: &ReexecutionContext, run: ContextRun) -> (r: ContextAction<
        E,
    >)
        requires
            context.wf(),
            context.holds(run),
        ensures
            r == context.action::<E>(run),
    {
        match run.phase {
            Phase::Resolve(k) => self.resolve_conflict(context.conflicts[k], run.version),
            Phase::Transact => ContextAction::Transact,
            Phase::Verify(k) => ContextAction::VerifyStateConsistency {
                address: context.modified_addresses.at(k),
                version: run.version,
            },
            Phase::Over => ContextAction::Accept,
        }
    }

    /// What resolves a conflict in a version of the state.
    pub fn resolve_conflict<E>(&self, conflict: AccessConflict, version: u64) -> (r: ContextAction<
        E,
    >)
        ensures
            r == resolution::<E>(conflict, version),
    {
        match conflict.conflict_type {
            AccessKind::Read => ContextAction::EnsureLatestState {
                address: conflict.address,
                version,
            },
            AccessKind::Write => ContextAction::MergeStates {
                address: conflict.address,
                from_version: conflict.from_version,
                version,
            },
            AccessKind::Account => ContextAction::SyncAccountState {
                address: conflict.address,
                version,
            },
        }
    }

    /// The result of an accepted run. How long it took is for the caller to fill in.
    pub fn accepted<R>(&self, context: &ReexecutionContext, result: R, gas_used: u64) -> (r:
        ExecutionResult<R>)
        ensures
            r == (ExecutionResult {
                result,
                gas_used,
                execution_time: 0,
                conflicts_resolved: context.conflicts@.len() as usize,
                operations_reexecuted: context.original_operations@.len() as usize,
            }),
    {
        ExecutionResult {
            result,
            gas_used,
            execution_time: 0,
            conflicts_resolved: context.conflicts.len(),
            operations_reexecuted: context.original_operations.len(),
        }
    }
}

/// A run whose actions all go well resolves every conflict in turn, then executes the
/// transaction, then verifies every account in turn, and only then is over.
pub proof fn law_a_run_goes_through_everything_in_order(context: ReexecutionContext, count: nat)
    requires
        context.conflicts@.len() <= usize::MAX,
        context.modified_addresses.order().len() <= usize::MAX,
    ensures
        ({
            let n = context.conflicts@.len();
            let m = context.modified_addresses.order().len();
            context.after_actions(count) == if count < n {
                Phase::Resolve(count as usize)
            } else if count == n {
                Phase::Transact
            } else if count - n - 1 < m {
                Phase::Verify((count - n - 1) as usize)
            } else {
                Phase::Over
            }
        }),
    decreases count,
{
    if count > 0 {
        law_a_run_goes_through_everything_in_order(context, (count - 1) as nat);
    }
}

/// A result is accepted only after an action that went well and was the last one:
/// never after a failure, and never after an account was found inconsistent.
pub proof fn law_only_a_verified_run_is_accepted<E>(
    context: ReexecutionContext,
    run: ContextRun,
    event: ContextEvent<E>,
)
    requires
        context.holds(run),
    ensures
        context.react(run, event).0 is Accept <==> event is Done && context.after(run.phase)
            == Phase::Over,
        context.react(run, event).0 is RejectAndRevert <==> event is Inconsistent,
        context.react(run, event).0 is FailAndRevert <==> event is Failed && run.phase
            == Phase::Transact,
{
}

} // verus!
