use optimism::collections::KeySet;
use optimism::primitives::U256;
use optimism::scheduler::scheduler::TransactionScheduler;

fn on(dependencies: &[usize]) -> KeySet<usize> {
    let mut set = KeySet::new();
    for dependency in dependencies {
        set.insert(*dependency);
    }
    set
}

fn add(scheduler: &mut TransactionScheduler, tx: usize, dependencies: &[usize], priority: u64) {
    scheduler.add_transaction(tx, U256::from_u64(1), 21000, &on(dependencies), priority, 5);
}

#[test]
fn the_highest_priority_goes_first() {
    let mut scheduler = TransactionScheduler::new();
    add(&mut scheduler, 0, &[], 10);
    add(&mut scheduler, 1, &[], 30);
    add(&mut scheduler, 2, &[], 20);
    add(&mut scheduler, 3, &[], 30);
    assert_eq!(scheduler.get_next_batch(3), vec![1, 3, 2]);
    assert_eq!(scheduler.pending_len(), 1);
    assert_eq!(scheduler.get_next_batch(3), vec![0]);
    assert!(scheduler.get_next_batch(3).is_empty());
}

#[test]
fn nothing_goes_before_what_it_depends_on() {
    let mut scheduler = TransactionScheduler::new();
    add(&mut scheduler, 0, &[1], 90);
    add(&mut scheduler, 1, &[2], 50);
    add(&mut scheduler, 2, &[], 10);
    assert!(!scheduler.is_executable(0));
    assert!(scheduler.is_executable(2));
    assert_eq!(scheduler.get_next_batch(2), vec![2, 1]);
    assert_eq!(scheduler.get_next_batch(2), vec![0]);
}

#[test]
fn what_depends_on_something_unknown_waits() {
    let mut scheduler = TransactionScheduler::new();
    add(&mut scheduler, 0, &[7], 90);
    assert!(scheduler.get_next_batch(4).is_empty());
    add(&mut scheduler, 7, &[], 1);
    assert_eq!(scheduler.get_next_batch(4), vec![7, 0]);
}

#[test]
fn an_empty_batch_takes_nothing() {
    let mut scheduler = TransactionScheduler::new();
    add(&mut scheduler, 0, &[], 1);
    assert!(scheduler.get_next_batch(0).is_empty());
    assert_eq!(scheduler.pending_len(), 1);
}

#[test]
fn new_priorities_count() {
    let mut scheduler = TransactionScheduler::new();
    add(&mut scheduler, 0, &[], 10);
    add(&mut scheduler, 1, &[], 20);
    assert_eq!(scheduler.pending(1).tx_index, 1);
    assert_eq!(scheduler.pending(1).waiting_since, 5);
    assert_eq!(scheduler.pending(1).gas_price, U256::from_u64(1));
    assert_eq!(scheduler.pending(1).estimated_gas, 21000);
    scheduler.update_priorities(&vec![40, 30]);
    assert_eq!(scheduler.pending(0).priority, 40);
    assert_eq!(scheduler.get_next_batch(2), vec![0, 1]);
}
