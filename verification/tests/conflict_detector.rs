use optimism::db::versioned::VersionedStateDB;
use optimism::parallel::conflict_detector::{ConflictDetector, ConflictType};
use optimism::parallel::operation_logs::{Context, OperationLog};
use optimism::primitives::{Address, U256};

fn context() -> Context<(), ()> {
    Context { block: (), tx: () }
}

fn account(n: u128) -> Address {
    Address { hi: 0, lo: n }
}

fn slot(n: u64) -> U256 {
    U256::from_u64(n)
}

#[test]
fn test_basic_conflict_detection() {
    let context = context();
    let db = VersionedStateDB::new();
    let mut detector = ConflictDetector::new();

    let mut log1 = OperationLog::new(0, 1, &context);
    log1.record_write_versioned(
        Address::zero(),
        U256::from_u64(1),
        U256::from_u64(100),
        U256::from_u64(0),
    )
    .unwrap();

    let mut log2 = OperationLog::new(1, 1, &context);
    log2.record_read_versioned(Address::zero(), U256::from_u64(1), &db).unwrap();

    detector.analyze_operation_log(&log1);
    detector.analyze_operation_log(&log2);

    let conflicts = detector.detect_conflicts(1);
    assert!(!conflicts.is_empty());
}

#[test]
fn a_read_of_an_earlier_write_is_told_twice() {
    let context = context();
    let db = VersionedStateDB::new();
    let mut detector = ConflictDetector::new();
    let mut writer = OperationLog::new(2, 1, &context);
    writer.record_account_access(account(9));
    writer.record_write_versioned(account(1), slot(5), slot(1), slot(0)).unwrap();
    let mut reader = OperationLog::new(7, 1, &context);
    reader.record_read_versioned(account(1), slot(5), &db).unwrap();
    detector.analyze_operation_log(&writer);
    detector.analyze_operation_log(&reader);

    let conflicts = detector.detect_conflicts(7);
    assert_eq!(conflicts.len(), 2);
    match &conflicts[0] {
        ConflictType::TransactionLevel { tx1_index, tx2_index, conflicting_addresses } => {
            assert_eq!(*tx1_index, 7);
            assert_eq!(*tx2_index, 2);
            assert_eq!(conflicting_addresses.len(), 1);
            assert!(conflicting_addresses.contains(&account(1)));
        }
        other => panic!("{:?}", other),
    }
    match &conflicts[1] {
        ConflictType::OperationLevel { tx_index, op_index, address, slot: at } => {
            assert_eq!((*tx_index, *op_index), (2, 1));
            assert_eq!((*address, *at), (account(1), Some(slot(5))));
        }
        other => panic!("{:?}", other),
    }
    assert!(detector.detect_conflicts(2).is_empty());
}

#[test]
fn writing_what_an_earlier_one_wrote_is_a_conflict_of_transactions_only() {
    let context = context();
    let mut detector = ConflictDetector::new();
    let mut first = OperationLog::new(0, 1, &context);
    first.record_write_versioned(account(1), slot(5), slot(1), slot(0)).unwrap();
    let mut second = OperationLog::new(1, 1, &context);
    second.record_write_versioned(account(1), slot(5), slot(2), slot(0)).unwrap();
    detector.analyze_operation_log(&first);
    detector.analyze_operation_log(&second);
    let conflicts = detector.detect_conflicts(1);
    assert_eq!(conflicts.len(), 1);
    assert!(matches!(conflicts[0], ConflictType::TransactionLevel { .. }));
}

#[test]
fn an_account_access_reads_slot_zero() {
    let context = context();
    let mut detector = ConflictDetector::new();
    let mut writer = OperationLog::new(0, 1, &context);
    writer.record_write_versioned(account(1), slot(0), slot(1), slot(0)).unwrap();
    let mut by_account = OperationLog::new(1, 1, &context);
    by_account.record_account_access(account(1));
    let mut by_code = OperationLog::new(2, 1, &context);
    by_code.record_code_access(account(1));
    detector.analyze_operation_log(&writer);
    detector.analyze_operation_log(&by_account);
    detector.analyze_operation_log(&by_code);
    assert_eq!(detector.detect_conflicts(1).len(), 2);
    assert_eq!(detector.detect_conflicts(2).len(), 2);
}

#[test]
fn transactions_without_a_shared_slot_have_no_conflict() {
    let context = context();
    let db = VersionedStateDB::new();
    let mut detector = ConflictDetector::new();
    let mut writer = OperationLog::new(0, 1, &context);
    writer.record_write_versioned(account(1), slot(5), slot(1), slot(0)).unwrap();
    let mut reader = OperationLog::new(1, 1, &context);
    reader.record_read_versioned(account(1), slot(6), &db).unwrap();
    reader.record_read_versioned(account(2), slot(5), &db).unwrap();
    detector.analyze_operation_log(&writer);
    detector.analyze_operation_log(&reader);
    assert!(detector.detect_conflicts(1).is_empty());
}

#[test]
fn an_operation_conflict_names_the_last_write() {
    let context = context();
    let db = VersionedStateDB::new();
    let mut detector = ConflictDetector::new();
    for tx in 0..3usize {
        let mut log = OperationLog::new(tx, 1, &context);
        log.record_write_versioned(account(1), slot(5), slot(1), slot(0)).unwrap();
        log.record_write_versioned(account(1), slot(5), slot(2), slot(1)).unwrap();
        detector.analyze_operation_log(&log);
    }
    let mut reader = OperationLog::new(2, 1, &context);
    reader.record_read_versioned(account(1), slot(5), &db).unwrap();
    detector.analyze_operation_log(&reader);
    let conflicts = detector.detect_conflicts(2);
    match &conflicts[conflicts.len() - 1] {
        ConflictType::OperationLevel { tx_index, op_index, .. } => {
            assert_eq!((*tx_index, *op_index), (1, 1));
        }
        other => panic!("{:?}", other),
    }
}

#[test]
fn an_answer_is_kept_until_the_cache_is_cleared() {
    let context = context();
    let db = VersionedStateDB::new();
    let mut detector = ConflictDetector::new();
    let mut reader = OperationLog::new(1, 1, &context);
    reader.record_read_versioned(account(1), slot(5), &db).unwrap();
    detector.analyze_operation_log(&reader);
    assert!(detector.detect_conflicts(1).is_empty());
    let mut writer = OperationLog::new(0, 1, &context);
    writer.record_write_versioned(account(1), slot(5), slot(1), slot(0)).unwrap();
    detector.analyze_operation_log(&writer);
    assert!(detector.detect_conflicts(1).is_empty());
    detector.clear_cache();
    assert_eq!(detector.detect_conflicts(1).len(), 2);
    assert!(detector.detect_conflicts(5).is_empty());
}
