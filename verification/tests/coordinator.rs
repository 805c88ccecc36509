use optimism::coordinator::coordinator::{
    finished, Executed, ExecutionResult, ExecutionRun, ParallelExecutionCoordinator, Progress,
    TransactionCheck,
};
use optimism::db::versioned::VersionedStateDB;
use optimism::parallel::operation_logs::Context;
use optimism::parallel::reexecution::ReexecutionStep;
use optimism::primitives::{Address, U256};

fn contexts(n: usize) -> Vec<Context<(), usize>> {
    (0..n).map(|tx| Context { block: (), tx }).collect()
}

fn account(n: u128) -> Address {
    Address { hi: 0, lo: n }
}

fn word(n: u64) -> U256 {
    U256::from_u64(n)
}

fn result(n: usize, conflicts: usize) -> ExecutionResult<usize> {
    ExecutionResult {
        result: n,
        gas_used: 21000,
        execution_time: 1,
        conflicts_resolved: conflicts,
        operations_reexecuted: 0,
    }
}

#[test]
fn a_list_runs_to_its_end() {
    let contexts = contexts(3);
    let mut coordinator = ParallelExecutionCoordinator::new(2, 9, 1);
    assert_eq!(coordinator.batch_timeout(), 9);
    let mut run: ExecutionRun<usize> =
        coordinator.begin_transactions(vec![10, 11, 12], &contexts);
    for (tx, priority) in [(10, 1), (11, 3), (12, 2)] {
        coordinator.schedule_transaction(tx, word(1), 21000, priority, 0);
    }
    assert_eq!(coordinator.pending_len(), 3);
    assert_eq!(coordinator.pending(1).priority, 3);
    match coordinator.execute_transactions(run) {
        Progress::Execute { run: next, batch } => {
            assert_eq!(batch, vec![11, 12]);
            run = next;
        }
        other => panic!("{:?}", other),
    }
    coordinator.settle_batch(&mut run, vec![(11, result(1, 0)), (12, result(2, 0))], 5);
    match coordinator.execute_transactions(run) {
        Progress::Execute { run: next, batch } => {
            assert_eq!(batch, vec![10]);
            run = next;
        }
        other => panic!("{:?}", other),
    }
    coordinator.settle_batch(&mut run, vec![(10, result(0, 0))], 6);
    match coordinator.execute_transactions(run) {
        Progress::Finished { results } => {
            assert_eq!(results.iter().map(|r| r.result).collect::<Vec<_>>(), vec![0, 1, 2]);
        }
        other => panic!("{:?}", other),
    }
}

#[test]
fn batches_without_a_result_use_up_the_retries() {
    let contexts = contexts(1);
    let mut coordinator = ParallelExecutionCoordinator::new(2, 9, 2);
    let mut run: ExecutionRun<usize> = coordinator.begin_transactions(vec![4], &contexts);
    coordinator.schedule_transaction(4, word(1), 21000, 1, 0);
    for expected in [vec![4], vec![]] {
        match coordinator.execute_transactions(run) {
            Progress::Execute { run: next, batch } => {
                assert_eq!(batch, expected);
                run = next;
            }
            other => panic!("{:?}", other),
        }
        coordinator.settle_batch(&mut run, vec![], 1);
    }
    assert!(matches!(coordinator.execute_transactions(run), Progress::Incomplete { .. }));
}

#[test]
fn an_empty_list_is_finished_at_once() {
    let contexts = contexts(0);
    let mut coordinator = ParallelExecutionCoordinator::new(2, 9, 0);
    let run: ExecutionRun<usize> = coordinator.begin_transactions(vec![], &contexts);
    match coordinator.execute_transactions(run) {
        Progress::Finished { results } => assert!(results.is_empty()),
        other => panic!("{:?}", other),
    }
}

#[test]
fn a_conflict_is_planned_and_led_through() {
    let contexts = contexts(2);
    let db = VersionedStateDB::new();
    let mut coordinator = ParallelExecutionCoordinator::new(2, 9, 2);
    let _run: ExecutionRun<usize> = coordinator.begin_transactions(vec![0, 1], &contexts);
    assert_eq!(coordinator.execute_transaction(), 1);
    assert_eq!(coordinator.execute_transaction(), 2);
    let writer = coordinator.position_of(0).unwrap();
    coordinator
        .operation_log(writer)
        .write()
        .unwrap()
        .record_write_versioned(account(1), word(5), word(6), word(0))
        .unwrap();
    let reader = coordinator.position_of(1).unwrap();
    coordinator
        .operation_log(reader)
        .write()
        .unwrap()
        .record_read_versioned(account(1), word(5), &db)
        .unwrap();
    coordinator.analyze_batch(&vec![1, 0]);
    let check = coordinator.execute_single_transaction(1);
    assert_eq!((check.conflicts_resolved, check.operations_reexecuted), (2, 1));
    let plan = check.plan.unwrap();
    assert_eq!(plan.len(), 2);
    assert_eq!((plan.point(0).tx_index, plan.point(0).state_version), (0, 2));
    assert!(matches!(
        coordinator.reexecute(1, &plan, 0),
        ReexecutionStep::Execute { tx_index: 1, op_index: 0 }
    ));
    assert_eq!(coordinator.current_version(), 2);
    assert!(matches!(
        coordinator.reexecute(1, &plan, 1),
        ReexecutionStep::Execute { tx_index: 1, op_index: 0 }
    ));
    assert!(matches!(coordinator.reexecute(1, &plan, 2), ReexecutionStep::Finished));
    let check = coordinator.execute_single_transaction(0);
    assert_eq!((check.conflicts_resolved, check.operations_reexecuted), (0, 0));
    assert!(check.plan.is_none());
    let check = coordinator.execute_single_transaction(77);
    assert_eq!((check.conflicts_resolved, check.operations_reexecuted), (0, 0));
    assert!(check.plan.is_none());
}

#[test]
fn a_log_that_cannot_be_read_has_no_conflicts() {
    let contexts = contexts(2);
    let mut coordinator = ParallelExecutionCoordinator::new(2, 9, 2);
    let _run: ExecutionRun<usize> = coordinator.begin_transactions(vec![0, 1], &contexts);
    for i in 0..2usize {
        coordinator
            .operation_log(i)
            .write()
            .unwrap()
            .record_write_versioned(account(1), word(5), word(6), word(0))
            .unwrap();
    }
    coordinator.operation_log(1).poison();
    coordinator.analyze_batch(&vec![0, 1]);
    let check = coordinator.execute_single_transaction(1);
    assert_eq!((check.conflicts_resolved, check.operations_reexecuted), (0, 0));
}

#[test]
fn conflicts_teach_what_to_expect() {
    let contexts = contexts(2);
    let mut coordinator = ParallelExecutionCoordinator::new(2, 9, 2);
    let mut run: ExecutionRun<usize> = coordinator.begin_transactions(vec![0, 1], &contexts);
    for address in [1u128, 2, 1] {
        coordinator
            .operation_log(0)
            .write()
            .unwrap()
            .record_account_access(account(address));
    }
    assert!(coordinator.predict_dependencies(1).is_empty());
    assert_eq!(coordinator.find_transaction_accessing_address(account(2)), Some(0));
    assert_eq!(coordinator.find_transaction_accessing_address(account(3)), None);
    coordinator.settle_batch(&mut run, vec![(0, result(0, 1))], 4);
    let dependencies = coordinator.predict_dependencies(1);
    assert_eq!(dependencies.len(), 1);
    assert!(dependencies.contains(&0));
    assert!(coordinator.predict_dependencies(5).is_empty());
    coordinator.schedule_transaction(1, word(1), 21000, 1, 0);
    match coordinator.execute_transactions(run) {
        Progress::Execute { batch, .. } => assert!(batch.is_empty()),
        other => panic!("{:?}", other),
    }
}

#[test]
fn a_result_without_conflicts_teaches_nothing() {
    let contexts = contexts(2);
    let mut coordinator = ParallelExecutionCoordinator::new(2, 9, 2);
    let mut run: ExecutionRun<usize> = coordinator.begin_transactions(vec![0, 1], &contexts);
    for address in [1u128, 2, 1] {
        coordinator
            .operation_log(0)
            .write()
            .unwrap()
            .record_account_access(account(address));
    }
    coordinator.settle_batch(&mut run, vec![(0, result(0, 0))], 4);
    assert!(coordinator.predict_dependencies(1).is_empty());
}

#[test]
fn waiting_transactions_get_new_priorities() {
    let contexts = contexts(2);
    let mut coordinator = ParallelExecutionCoordinator::new(1, 9, 2);
    let run: ExecutionRun<usize> = coordinator.begin_transactions(vec![0, 1], &contexts);
    coordinator.schedule_transaction(0, word(1), 21000, 2, 0);
    coordinator.schedule_transaction(1, word(1), 21000, 1, 0);
    coordinator.update_priorities(&vec![1, 2]);
    match coordinator.execute_transactions(run) {
        Progress::Execute { batch, .. } => assert_eq!(batch, vec![1]),
        other => panic!("{:?}", other),
    }
}

#[test]
fn a_batch_is_shown_whole_before_it_is_checked() {
    let contexts = contexts(2);
    let db = VersionedStateDB::new();
    let mut coordinator = ParallelExecutionCoordinator::new(2, 9, 2);
    let _run: ExecutionRun<usize> = coordinator.begin_transactions(vec![0, 1], &contexts);
    coordinator
        .operation_log(0)
        .write()
        .unwrap()
        .record_write_versioned(account(1), word(5), word(6), word(0))
        .unwrap();
    coordinator
        .operation_log(1)
        .write()
        .unwrap()
        .record_read_versioned(account(1), word(5), &db)
        .unwrap();
    let checks = coordinator.check_batch(&vec![1, 0, 9]);
    let told: Vec<(usize, usize, usize, bool)> = checks
        .iter()
        .map(|(tx, c)| (*tx, c.conflicts_resolved, c.operations_reexecuted, c.plan.is_some()))
        .collect();
    assert_eq!(told, vec![(1, 2, 1, true), (0, 0, 0, false), (9, 0, 0, false)]);
}

#[test]
fn a_transaction_that_collides_with_itself_runs_again() {
    let contexts = contexts(1);
    let db = VersionedStateDB::new();
    let mut coordinator = ParallelExecutionCoordinator::new(2, 9, 2);
    let _run: ExecutionRun<usize> = coordinator.begin_transactions(vec![4], &contexts);
    coordinator.execute_transaction();
    {
        let log = coordinator.operation_log(0).write().unwrap();
        for i in 0..150 {
            log.record_read_versioned(account(2), word(i), &db).unwrap();
        }
        log.record_write_versioned(account(1), word(5), word(6), word(0)).unwrap();
        log.record_account_access(account(1));
        log.record_read_versioned(account(1), word(5), &db).unwrap();
    }
    let checks = coordinator.check_batch(&vec![4]);
    let check = &checks[0].1;
    assert_eq!((check.conflicts_resolved, check.operations_reexecuted), (0, 153));
    let plan = check.plan.as_ref().unwrap();
    assert_eq!(plan.len(), 1);
    assert_eq!((plan.point(0).tx_index, plan.point(0).op_index), (4, 100));
    assert_eq!(plan.point(0).state_version, 1);
    assert!(plan.affects_slot(account(1), word(5)));
    assert!(matches!(
        coordinator.reexecute(4, plan, 0),
        ReexecutionStep::Execute { tx_index: 4, op_index: 100 }
    ));
}

#[test]
fn the_last_execution_stands() {
    let check = TransactionCheck { conflicts_resolved: 3, operations_reexecuted: 7, plan: None };
    let first = || Executed { result: "first", gas_used: 10 };
    let once = finished(&check, first(), None, 5);
    assert_eq!((once.result, once.gas_used, once.execution_time), ("first", 10, 5));
    assert_eq!((once.conflicts_resolved, once.operations_reexecuted), (3, 7));
    let twice = finished(&check, first(), Some(Executed { result: "again", gas_used: 20 }), 6);
    assert_eq!((twice.result, twice.gas_used, twice.execution_time), ("again", 20, 6));
}
