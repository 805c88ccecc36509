use optimism::collections::KeySet;
use optimism::coordinator::reexecution::{
    AccessConflict, AccessKind, ContextAction, ContextEvent, ContextRun, Phase,
};
use optimism::db::versioned::{VersionedStateDB, VersionedStateDBError};
use optimism::parallel::conflict_detector::ConflictType;
use optimism::parallel::operation_logs::{Context, OperationLog};
use optimism::parallel::reexecution::{PartialReexecutor, ReexecutionStep};
use optimism::primitives::{Address, U256};

fn context() -> Context<(), ()> {
    Context { block: (), tx: () }
}

fn account(n: u128) -> Address {
    Address { hi: 0, lo: n }
}

fn word(n: u64) -> U256 {
    U256::from_u64(n)
}

fn operation_conflict(tx_index: usize, op_index: usize, n: u128) -> ConflictType {
    ConflictType::OperationLevel { tx_index, op_index, address: account(n), slot: Some(word(5)) }
}

#[test]
fn every_conflict_gets_a_point() {
    let context = context();
    let log = OperationLog::new(4, 1, &context);
    let mut reexecutor = PartialReexecutor::new(100);
    let mut addresses: KeySet<Address> = KeySet::new();
    addresses.insert(account(8));
    let conflicts = vec![
        ConflictType::TransactionLevel {
            tx1_index: 4,
            tx2_index: 2,
            conflicting_addresses: addresses,
        },
        operation_conflict(3, 250, 7),
        operation_conflict(1, 99, 6),
    ];
    let plan = reexecutor.prepare_reexecution(&log, &conflicts);
    assert_eq!(plan.len(), 3);
    assert_eq!((plan.point(0).tx_index, plan.point(0).op_index), (2, 0));
    assert_eq!((plan.point(1).tx_index, plan.point(1).op_index), (3, 200));
    assert_eq!((plan.point(2).tx_index, plan.point(2).op_index), (1, 0));
    assert_eq!(plan.point(1).state_version, 0);
    assert!(plan.affects_address(account(8)));
    assert!(plan.affects_address(account(7)));
    assert!(plan.affects_slot(account(7), word(5)));
    assert!(!plan.affects_slot(account(8), word(5)));
    assert!(!plan.affects_address(account(5)));
}

#[test]
fn a_checkpoint_is_bare() {
    let mut reexecutor = PartialReexecutor::new(10);
    let point = reexecutor.create_checkpoint(3, 17);
    assert_eq!((point.tx_index, point.op_index), (3, 17));
    assert_eq!((point.state_version, point.gas_used), (0, 0));
    assert!(point.stack_snapshot.is_empty());
    assert!(point.memory_snapshot.is_empty());
}

#[test]
fn a_plan_runs_from_point_to_point() {
    let context = context();
    let log = OperationLog::new(4, 1, &context);
    let mut reexecutor = PartialReexecutor::new(10);
    let mut db = VersionedStateDB::new();
    db.create_snapshot();
    let conflicts = vec![operation_conflict(3, 25, 7), operation_conflict(1, 9, 6)];
    let mut plan = reexecutor.prepare_reexecution(&log, &conflicts);
    plan.set_version(1);
    assert!(matches!(
        reexecutor.reexecute(&mut db, 4, &plan, 0),
        ReexecutionStep::Execute { tx_index: 4, op_index: 20 }
    ));
    assert_eq!(db.current_version(), 1);
    assert!(matches!(
        reexecutor.reexecute(&mut db, 4, &plan, 1),
        ReexecutionStep::Execute { tx_index: 4, op_index: 0 }
    ));
    assert!(matches!(reexecutor.reexecute(&mut db, 4, &plan, 2), ReexecutionStep::Finished));
    assert_eq!(db.current_version(), 2);
}

#[test]
fn a_point_without_a_version_ends_the_run() {
    let context = context();
    let log = OperationLog::new(4, 1, &context);
    let mut reexecutor = PartialReexecutor::new(10);
    let mut db = VersionedStateDB::new();
    let mut plan = reexecutor.prepare_reexecution(&log, &vec![operation_conflict(3, 25, 7)]);
    plan.set_state_version(0, 9);
    assert!(matches!(
        reexecutor.reexecute(&mut db, 4, &plan, 0),
        ReexecutionStep::Failed(VersionedStateDBError::VersionNotFound(9))
    ));
    assert_eq!(db.current_version(), 1);
}

fn access_conflicts() -> Vec<AccessConflict> {
    vec![
        AccessConflict {
            address: account(1),
            conflict_type: AccessKind::Read,
            from_version: 5,
        },
        AccessConflict {
            address: account(2),
            conflict_type: AccessKind::Write,
            from_version: 6,
        },
        AccessConflict {
            address: account(1),
            conflict_type: AccessKind::Account,
            from_version: 7,
        },
    ]
}

#[test]
fn a_context_gathers_accounts_and_operations() {
    let context = context();
    let mut log = OperationLog::new(4, 1, &context);
    log.record_account_access(account(3));
    let reexecutor = PartialReexecutor::new(10);
    let gathered = reexecutor.prepare_reexecution_context(4, &access_conflicts(), &log);
    assert_eq!(gathered.tx_idx, 4);
    assert_eq!(gathered.conflicts, access_conflicts());
    assert_eq!(gathered.original_operations, *log.operations());
    assert_eq!(gathered.modified_addresses.len(), 2);
    let result = reexecutor.accepted(&gathered, "fine", 30000);
    assert_eq!(result.result, "fine");
    assert_eq!((result.gas_used, result.execution_time), (30000, 0));
    assert_eq!((result.conflicts_resolved, result.operations_reexecuted), (3, 1));
}

#[test]
fn a_run_that_goes_well_is_accepted_at_its_end() {
    let context = context();
    let log = OperationLog::new(4, 1, &context);
    let reexecutor = PartialReexecutor::new(10);
    let mut db = VersionedStateDB::new();
    let gathered = reexecutor.prepare_reexecution_context(4, &access_conflicts(), &log);
    let (first, run): (ContextAction<String>, ContextRun) =
        reexecutor.begin_context(&mut db, &gathered);
    assert_eq!((run.version, run.phase), (1, Phase::Resolve(0)));
    assert!(matches!(
        first,
        ContextAction::EnsureLatestState { address, version: 1 } if address == account(1)
    ));
    let (action, run) = reexecutor.reexecute_context::<String>(&gathered, run, ContextEvent::Done);
    assert!(matches!(
        action,
        ContextAction::MergeStates { address, from_version: 6, version: 1 }
            if address == account(2)
    ));
    let (action, run) = reexecutor.reexecute_context::<String>(&gathered, run, ContextEvent::Done);
    assert!(matches!(
        action,
        ContextAction::SyncAccountState { address, version: 1 } if address == account(1)
    ));
    let (action, run) = reexecutor.reexecute_context::<String>(&gathered, run, ContextEvent::Done);
    assert!(matches!(action, ContextAction::Transact));
    let (action, run) = reexecutor.reexecute_context::<String>(&gathered, run, ContextEvent::Done);
    assert!(matches!(
        action,
        ContextAction::VerifyStateConsistency { address, version: 1 } if address == account(1)
    ));
    let (action, run) = reexecutor.reexecute_context::<String>(&gathered, run, ContextEvent::Done);
    assert!(matches!(
        action,
        ContextAction::VerifyStateConsistency { address, version: 1 } if address == account(2)
    ));
    let (action, run) = reexecutor.reexecute_context::<String>(&gathered, run, ContextEvent::Done);
    assert!(matches!(action, ContextAction::Accept));
    assert_eq!(run.phase, Phase::Over);
}

#[test]
fn only_execution_and_verification_take_the_version_back() {
    let context = context();
    let log = OperationLog::new(4, 1, &context);
    let reexecutor = PartialReexecutor::new(10);
    let gathered = reexecutor.prepare_reexecution_context(4, &access_conflicts(), &log);
    let failed = |phase: Phase| {
        reexecutor
            .reexecute_context(
                &gathered,
                ContextRun { version: 3, phase },
                ContextEvent::Failed { error: String::from("no") },
            )
            .0
    };
    assert!(matches!(
        failed(Phase::Transact),
        ContextAction::FailAndRevert { version: 3, error } if error == "no"
    ));
    assert!(matches!(
        failed(Phase::Resolve(1)),
        ContextAction::Fail { error } if error == "no"
    ));
    assert!(matches!(
        failed(Phase::Verify(1)),
        ContextAction::Fail { error } if error == "no"
    ));
    let (action, run) = reexecutor.reexecute_context::<String>(
        &gathered,
        ContextRun { version: 3, phase: Phase::Verify(0) },
        ContextEvent::Inconsistent,
    );
    assert!(matches!(action, ContextAction::RejectAndRevert { version: 3 }));
    assert_eq!(run.phase, Phase::Over);
}

#[test]
fn a_context_without_conflicts_only_executes() {
    let context = context();
    let log = OperationLog::new(4, 1, &context);
    let reexecutor = PartialReexecutor::new(10);
    let mut db = VersionedStateDB::new();
    let gathered = reexecutor.prepare_reexecution_context(4, &Vec::new(), &log);
    let (first, run): (ContextAction<String>, ContextRun) =
        reexecutor.begin_context(&mut db, &gathered);
    assert!(matches!(first, ContextAction::Transact));
    let (action, _) = reexecutor.reexecute_context::<String>(&gathered, run, ContextEvent::Done);
    assert!(matches!(action, ContextAction::Accept));
}
