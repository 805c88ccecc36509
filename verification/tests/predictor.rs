use optimism::collections::KeySet;
use optimism::parallel::operation_logs::Operation;
use optimism::parallel::predictor::DependencyPredictor;
use optimism::primitives::{Address, U256};

fn account(n: u128) -> Address {
    Address { hi: 0, lo: n }
}

fn access(n: u128) -> Operation {
    Operation::AccountAccess { address: account(n) }
}

fn write(n: u128, slot: u64) -> Operation {
    Operation::Write {
        address: account(n),
        slot: U256::from_u64(slot),
        value: U256::zero(),
        original_value: U256::zero(),
    }
}

fn none() -> KeySet<Address> {
    KeySet::new()
}

#[test]
fn nothing_is_predicted_without_a_history() {
    let predictor = DependencyPredictor::new(100, 10);
    assert!(predictor.predict_dependencies(&none()).is_empty());
}

#[test]
fn what_followed_before_is_predicted() {
    let mut predictor = DependencyPredictor::new(100, 10);
    predictor.analyze_operation_log(&access(1), 21000, 0);
    assert!(predictor.predict_dependencies(&none()).is_empty());
    predictor.analyze_operation_log(&access(2), 21000, 1);
    assert!(predictor.predict_dependencies(&none()).is_empty());
    predictor.analyze_operation_log(&access(1), 21000, 2);
    let predicted = predictor.predict_dependencies(&none());
    assert_eq!(predicted.len(), 1);
    assert!(predicted.contains(&account(2)));
}

#[test]
fn the_history_is_bounded() {
    let mut predictor = DependencyPredictor::new(100, 0);
    predictor.analyze_operation_log(&access(1), 21000, 0);
    predictor.analyze_operation_log(&access(2), 21000, 1);
    predictor.analyze_operation_log(&access(1), 21000, 2);
    assert!(predictor.predict_dependencies(&none()).is_empty());
}

#[test]
fn writes_to_a_slot_are_counted() {
    let mut predictor = DependencyPredictor::new(100, 10);
    let slot = U256::from_u64(5);
    assert_eq!(predictor.observed_writes(account(1), slot), 0);
    predictor.analyze_operation_log(&write(1, 5), 21000, 0);
    predictor.analyze_operation_log(&write(1, 5), 21000, 0);
    predictor.analyze_operation_log(
        &Operation::Read { address: account(1), slot },
        21000,
        0,
    );
    predictor.analyze_operation_log(&write(1, 6), 21000, 0);
    assert_eq!(predictor.observed_writes(account(1), slot), 2);
    assert_eq!(predictor.observed_writes(account(2), slot), 0);
}

#[test]
fn old_patterns_and_single_sequences_are_dropped() {
    let mut predictor = DependencyPredictor::new(100, 10);
    predictor.analyze_operation_log(&write(1, 5), 21000, 0);
    predictor.analyze_operation_log(&write(1, 6), 21000, 60);
    predictor.cleanup_old_patterns(99);
    assert_eq!(predictor.observed_writes(account(1), U256::from_u64(5)), 1);
    predictor.cleanup_old_patterns(100);
    assert_eq!(predictor.observed_writes(account(1), U256::from_u64(5)), 0);
    assert_eq!(predictor.observed_writes(account(1), U256::from_u64(6)), 1);
}

#[test]
fn a_sequence_that_was_seen_twice_survives_a_cleanup() {
    let mut predictor = DependencyPredictor::new(100, 10);
    for _ in 0..2 {
        predictor.analyze_operation_log(&access(1), 21000, 0);
        predictor.analyze_operation_log(&access(2), 21000, 0);
    }
    predictor.cleanup_old_patterns(1);
    predictor.analyze_operation_log(&access(1), 21000, 2);
    let predicted = predictor.predict_dependencies(&none());
    assert!(predicted.contains(&account(2)));
    predictor.analyze_operation_log(&access(2), 21000, 3);
    let predicted = predictor.predict_dependencies(&none());
    assert!(predicted.contains(&account(1)));
}

#[test]
fn gas_that_would_overflow_cannot_be_learned() {
    let mut predictor = DependencyPredictor::new(100, 10);
    assert!(predictor.can_learn(&write(1, 5), u64::MAX));
    predictor.analyze_operation_log(&write(1, 5), u64::MAX, 0);
    assert!(!predictor.can_learn(&write(1, 5), u64::MAX));
    assert!(predictor.can_learn(&write(1, 5), 1));
    assert!(predictor.can_learn(&write(2, 5), u64::MAX));
}

#[test]
fn a_whole_log_is_learned_in_order() {
    let mut predictor = DependencyPredictor::new(100, 10);
    let log = vec![write(1, 5), write(1, 5), access(3), write(1, 5)];
    predictor.learn_operations(&log, u64::MAX, 0);
    assert_eq!(predictor.observed_writes(account(1), U256::from_u64(5)), 1);
    predictor.learn_operations(&log, 0, 0);
    assert_eq!(predictor.observed_writes(account(1), U256::from_u64(5)), 4);
}
