use optimism::collections::KeySet;
use optimism::db::versioned::VersionedStateDB;
use optimism::handler::conflict_channel::ConflictChannel;
use optimism::handler::dependencies::{determine_reexecution_order, DependencyTracker};
use optimism::handler::parallel::{ParallelExecutionHandler, ParallelGasTracker};
use optimism::parallel::operation_logs::{Conflict, Context};
use optimism::primitives::{Address, U256};

fn contexts(n: u32) -> Vec<Context<(), u32>> {
    (0..n).map(|tx| Context { block: (), tx }).collect()
}

fn account(n: u128) -> Address {
    Address { hi: 0, lo: n }
}

fn word(n: u64) -> U256 {
    U256::from_u64(n)
}

#[test]
fn gas_is_added_up_against_the_limit() {
    let mut tracker = ParallelGasTracker::new(100);
    assert!(tracker.add_gas(60));
    assert!(tracker.add_gas(40));
    assert!(!tracker.add_gas(1));
    assert!(!tracker.add_gas(0));
}

#[test]
fn the_channel_gives_conflicts_back_in_order() {
    let mut channel = ConflictChannel::new();
    assert!(channel.drain().is_empty());
    channel.send(Conflict::AccountAccess(account(1)));
    channel.send(Conflict::StorageSlot(account(2), word(3)));
    channel.send(Conflict::AccountAccess(account(1)));
    assert_eq!(
        channel.drain(),
        vec![
            Conflict::AccountAccess(account(1)),
            Conflict::StorageSlot(account(2), word(3)),
            Conflict::AccountAccess(account(1)),
        ]
    );
    assert!(channel.drain().is_empty());
}

#[test]
fn the_channel_holds_a_thousand_and_more() {
    let mut channel = ConflictChannel::new();
    for i in 0..1024u64 {
        channel.send(Conflict::StorageSlot(account(1), word(i)));
    }
    let conflicts = channel.drain();
    assert_eq!(conflicts.len(), 1024);
    assert_eq!(conflicts[1023], Conflict::StorageSlot(account(1), word(1023)));
}

#[test]
fn dependencies_run_first() {
    let mut tracker = DependencyTracker::new();
    tracker.add_dependency(1, 2);
    tracker.add_dependency(2, 3);
    tracker.add_dependency(1, 3);
    tracker.add_dependency(9, 1);
    let mut queue: KeySet<usize> = KeySet::new();
    queue.insert(1);
    queue.insert(4);
    queue.insert(2);
    assert_eq!(determine_reexecution_order(&tracker, &queue), vec![3, 2, 1, 4]);
    assert_eq!(tracker.get_dependencies(1).len(), 2);
    assert!(tracker.get_dependencies(3).is_empty());
}

#[test]
fn a_cycle_is_broken() {
    let mut tracker = DependencyTracker::new();
    tracker.add_dependency(1, 2);
    tracker.add_dependency(2, 1);
    tracker.add_dependency(3, 3);
    let mut queue: KeySet<usize> = KeySet::new();
    queue.insert(1);
    queue.insert(3);
    assert_eq!(determine_reexecution_order(&tracker, &queue), vec![2, 1, 3]);
}

#[test]
fn results_without_conflict_stand() {
    let contexts = contexts(3);
    let db = VersionedStateDB::new();
    let mut handler = ParallelExecutionHandler::new(1_000_000, 4);
    assert_eq!(handler.max_parallel_threads(), 4);
    assert_eq!(handler.begin_batch(&contexts), 1);
    assert_eq!(handler.batch_len(), 3);
    for i in 0..3usize {
        assert_eq!(handler.begin_transaction(), 2 + i as u64);
        handler
            .operation_log(i)
            .write()
            .unwrap()
            .record_read_versioned(account(i as u128), word(1), &db)
            .unwrap();
        assert_eq!(handler.operation_log(i).read().unwrap().version(), 1);
        assert_eq!(*handler.operation_log(i).read().unwrap().get_tx_info(), i as u32);
    }
    let ended = vec![(2, "two"), (0, "zero"), (1, "one")];
    assert_eq!(handler.count_conflicts(&ended), 0);
    let results = handler.execute_transactions_parallel(ended).unwrap();
    assert_eq!(results, vec![Some("zero"), Some("one"), Some("two")]);
    assert_eq!(handler.current_version(), 4);
    assert_eq!(handler.operation_log(0).read().unwrap().operations().len(), 1);
    assert!(handler.gas_tracker().add_gas(21000));
}

#[test]
fn transactions_in_conflict_start_again() {
    let contexts = contexts(4);
    let mut handler: ParallelExecutionHandler<(), u32> = ParallelExecutionHandler::new(1_000_000, 4);
    handler.begin_batch(&contexts);
    for i in [0usize, 2] {
        handler
            .operation_log(i)
            .write()
            .unwrap()
            .record_write_versioned(account(7), word(1), word(5), word(0))
            .unwrap();
    }
    handler.operation_log(1).write().unwrap().record_account_access(account(3));
    assert_eq!(handler.check_conflicts(0), None);
    assert_eq!(handler.check_conflicts(1), None);
    assert_eq!(handler.check_conflicts(2), Some(Conflict::StorageSlot(account(7), word(1))));
    assert_eq!(handler.find_conflicting_logs(&account(7), &word(1)), Some(vec![0, 2]));
    assert_eq!(handler.find_conflicting_account_logs(&account(3)), Some(vec![1]));
    assert_eq!(handler.find_conflicting_account_logs(&account(7)), Some(vec![]));
    let ended = vec![(0, 'a'), (1, 'b'), (2, 'c')];
    assert_eq!(handler.count_conflicts(&ended), 1);
    let results = handler.execute_transactions_parallel(ended).unwrap();
    assert_eq!(results, vec![None, None, None]);
    assert_eq!(handler.operation_log(0).read().unwrap().operations().len(), 0);
    assert_eq!(handler.operation_log(0).read().unwrap().version(), 2);
    assert_eq!(handler.operation_log(2).read().unwrap().operations().len(), 0);
    assert_eq!(handler.operation_log(2).read().unwrap().version(), 3);
    assert_eq!(handler.operation_log(1).read().unwrap().operations().len(), 1);
    assert_eq!(handler.current_version(), 4);
}

#[test]
fn an_account_that_two_transactions_access_is_a_conflict() {
    let contexts = contexts(3);
    let mut handler: ParallelExecutionHandler<(), u32> = ParallelExecutionHandler::new(1_000_000, 4);
    handler.begin_batch(&contexts);
    handler.operation_log(0).write().unwrap().record_account_access(account(3));
    handler.operation_log(2).write().unwrap().record_code_access(account(3));
    assert_eq!(handler.check_conflicts(2), Some(Conflict::AccountAccess(account(3))));
    let results = handler.execute_transactions_parallel(vec![(0, 1), (1, 2), (2, 3)]).unwrap();
    assert_eq!(results, vec![None, None, None]);
    assert!(handler.operation_log(0).read().unwrap().operations().is_empty());
    assert!(handler.operation_log(2).read().unwrap().operations().is_empty());
    let again = handler.execute_transactions_parallel(vec![(0, 1), (1, 2), (2, 3)]).unwrap();
    assert_eq!(again, vec![Some(1), Some(2), Some(3)]);
}

#[test]
fn a_poisoned_log_takes_no_part() {
    let contexts = contexts(2);
    let mut handler: ParallelExecutionHandler<(), u32> = ParallelExecutionHandler::new(1_000_000, 4);
    handler.begin_batch(&contexts);
    for i in [0usize, 1] {
        handler.operation_log(i).write().unwrap().record_account_access(account(3));
    }
    handler.operation_log(0).poison();
    assert_eq!(handler.check_conflicts(1), None);
    assert_eq!(handler.find_conflicting_account_logs(&account(3)), Some(vec![1]));
}

#[test]
fn the_last_result_of_an_index_stands() {
    let contexts = contexts(3);
    let mut handler: ParallelExecutionHandler<(), u32> = ParallelExecutionHandler::new(1_000_000, 4);
    handler.begin_batch(&contexts);
    let results = handler.execute_transactions_parallel(vec![(1, 'a'), (1, 'b'), (0, 'c')]).unwrap();
    assert_eq!(results, vec![Some('c'), Some('b'), None]);
}
