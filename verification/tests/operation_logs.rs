use optimism::db::versioned::VersionedStateDB;
use optimism::parallel::operation_logs::{
    Conflict, Context, LockPoisoned, Operation, OperationLog, OperationLogError, OperationType,
    SharedOperationLog,
};
use optimism::primitives::{Address, U256};

fn create_test_context() -> Context<u64, u64> {
    Context { block: 7, tx: 8 }
}

fn test_address() -> Address {
    Address { hi: 0x12345678, lo: 0x90123456789012345678901234567890 }
}

fn other_address() -> Address {
    Address { hi: 1, lo: 2 }
}

#[test]
fn test_basic_operation_recording() -> Result<(), OperationLogError> {
    let context = create_test_context();
    let db = VersionedStateDB::new();
    let mut log = OperationLog::new(0, 64, &context);

    let addr = test_address();
    let slot = U256::from_u64(1);
    let value = U256::from_u64(100);
    let original_value = U256::from_u64(0);

    log.record_read_versioned(addr, slot, &db)?;
    assert_eq!(log.read_count(), 1);

    log.record_write_versioned(addr, slot, value, original_value)?;
    assert_eq!(log.write_count(), 1);

    log.record_account_access(addr);
    assert_eq!(log.account_access_count(), 1);

    Ok(())
}

#[test]
fn test_conflict_detection() -> Result<(), OperationLogError> {
    let context = create_test_context();
    let db = VersionedStateDB::new();
    let mut log = OperationLog::new(0, 64, &context);

    let addr = test_address();
    let slot = U256::from_u64(1);
    let value = U256::from_u64(100);
    let original_value = U256::from_u64(0);

    log.record_read_versioned(addr, slot, &db)?;
    log.record_write_versioned(addr, slot, value, original_value)?;

    let conflicts = log.check_conflicts();
    assert_eq!(conflicts.len(), 1);
    assert_eq!(conflicts[0], (addr, slot));

    Ok(())
}

#[test]
fn test_validation_and_finalization() -> Result<(), OperationLogError> {
    let context = create_test_context();
    let db = VersionedStateDB::new();
    let mut log = OperationLog::new(0, 64, &context);

    let addr = test_address();
    let slot = U256::from_u64(1);
    let value = U256::from_u64(100);
    let original_value = U256::from_u64(0);

    log.record_read_versioned(addr, slot, &db)?;
    log.record_write_versioned(addr, slot, value, original_value)?;

    assert!(log.validate().is_ok());
    assert!(log.finalize().is_ok());

    assert!(log.record_read_versioned(addr, slot, &db).is_err());

    Ok(())
}

#[test]
fn test_shared_operation_log() -> Result<(), OperationLogError> {
    let context = create_test_context();
    let mut shared_log = SharedOperationLog::new(&context);

    let addr = test_address();
    let slot = U256::from_u64(1);
    let value = U256::from_u64(100);

    shared_log.record_read(addr, slot)?;
    shared_log.record_write(addr, slot, value)?;

    let log = shared_log.read().unwrap();
    let conflicts = log.check_conflicts();
    assert_eq!(conflicts.len(), 1);

    Ok(())
}

#[test]
fn test_duplicate_operations() -> Result<(), OperationLogError> {
    let context = create_test_context();
    let db = VersionedStateDB::new();
    let mut log = OperationLog::new(0, 64, &context);

    let addr = test_address();
    let slot = U256::from_u64(1);

    log.record_read_versioned(addr, slot, &db)?;
    assert!(log.record_read_versioned(addr, slot, &db).is_err());

    Ok(())
}

#[test]
fn test_version_management() -> Result<(), OperationLogError> {
    let context = create_test_context();
    let mut log = OperationLog::new(0, 64, &context);

    log.set_version(1)?;
    assert_eq!(log.version(), 1);

    log.finalize()?;

    assert!(log.set_version(2).is_err());

    Ok(())
}

#[test]
fn a_finalized_log_takes_no_versioned_operation() {
    let context = create_test_context();
    let db = VersionedStateDB::new();
    let mut log = OperationLog::new(3, 0, &context);
    let slot = U256::from_u64(5);
    assert_eq!(log.finalize(), Ok(()));
    assert_eq!(log.finalize(), Err(OperationLogError::LogFinalized));
    assert_eq!(log.set_version(4), Err(OperationLogError::LogFinalized));
    assert_eq!(
        log.record_read_versioned(test_address(), slot, &db),
        Err(OperationLogError::LogFinalized)
    );
    assert_eq!(
        log.record_write_versioned(test_address(), slot, slot, slot),
        Err(OperationLogError::LogFinalized)
    );
    log.record_read(test_address(), slot);
    log.record_account_access(test_address());
    assert_eq!(log.version(), 0);
    assert_eq!(log.tx_index(), 3);
    assert_eq!(log.operations().len(), 1);
}

#[test]
fn a_slot_is_recorded_as_read_once() {
    let context = create_test_context();
    let db = VersionedStateDB::new();
    let mut log = OperationLog::new(0, 64, &context);
    let slot = U256::from_u64(1);
    assert_eq!(log.record_read_versioned(test_address(), slot, &db), Ok(()));
    assert_eq!(
        log.record_read_versioned(test_address(), slot, &db),
        Err(OperationLogError::DuplicateOperation)
    );
    assert_eq!(log.record_read_versioned(other_address(), slot, &db), Ok(()));
    assert_eq!(log.read_count(), 2);
}

#[test]
fn a_noted_read_counts_as_a_duplicate_but_is_no_operation() {
    let context = create_test_context();
    let db = VersionedStateDB::new();
    let mut log = OperationLog::new(0, 64, &context);
    let slot = U256::from_u64(1);
    log.record_read(test_address(), slot);
    assert_eq!(log.read_count(), 0);
    assert_eq!(log.operations().len(), 0);
    assert!(!log.accessed_slot(test_address(), slot));
    assert_eq!(
        log.record_read_versioned(test_address(), slot, &db),
        Err(OperationLogError::DuplicateOperation)
    );
}

#[test]
fn writing_a_slot_twice_is_a_duplicate() {
    let context = create_test_context();
    let mut log = OperationLog::new(0, 64, &context);
    let slot = U256::from_u64(1);
    let value = U256::from_u64(2);
    log.record_write_versioned(test_address(), slot, value, U256::zero()).unwrap();
    assert_eq!(log.validate(), Ok(()));
    log.record_write_versioned(test_address(), slot, value, value).unwrap();
    assert_eq!(log.validate(), Err(OperationLogError::DuplicateOperation));
    assert_eq!(log.finalize(), Err(OperationLogError::DuplicateOperation));
    assert_eq!(log.set_version(9), Ok(()));
}

#[test]
fn reading_a_slot_after_writing_it_is_an_invalid_order() {
    let context = create_test_context();
    let db = VersionedStateDB::new();
    let mut log = OperationLog::new(0, 64, &context);
    let slot = U256::from_u64(1);
    log.record_write_versioned(test_address(), slot, slot, U256::zero()).unwrap();
    log.record_read_versioned(test_address(), slot, &db).unwrap();
    assert_eq!(log.validate(), Err(OperationLogError::InvalidOrder));
}

#[test]
fn a_duplicate_is_told_before_an_invalid_order() {
    let context = create_test_context();
    let db = VersionedStateDB::new();
    let mut log = OperationLog::new(0, 64, &context);
    let slot = U256::from_u64(1);
    log.record_write_versioned(test_address(), slot, slot, U256::zero()).unwrap();
    log.record_read_versioned(test_address(), slot, &db).unwrap();
    log.record_write_versioned(test_address(), slot, slot, slot).unwrap();
    assert_eq!(log.validate(), Err(OperationLogError::DuplicateOperation));
}

#[test]
fn every_pair_of_read_and_write_is_an_overlap() {
    let context = create_test_context();
    let mut log = OperationLog::new(0, 64, &context);
    let one = U256::from_u64(1);
    let two = U256::from_u64(2);
    log.record_read(test_address(), one);
    log.record_read(test_address(), two);
    log.record_write(test_address(), one, two);
    log.record_write(test_address(), one, one);
    log.record_write(other_address(), two, one);
    assert_eq!(log.check_conflicts(), vec![(test_address(), one), (test_address(), one)]);
    let (reads, writes) = log.extract_read_write_sets();
    assert_eq!(reads.len(), 2);
    assert_eq!(writes.len(), 2);
    assert!(writes.contains(&(other_address(), two)));
    assert!(!writes.contains(&(test_address(), two)));
}

#[test]
fn a_log_knows_its_block_and_transaction() {
    let context = create_test_context();
    let mut log = OperationLog::new(0, 64, &context);
    log.record_code_access(other_address());
    assert_eq!(*log.get_block_info(), 7);
    assert_eq!(*log.get_tx_info(), 8);
    assert!(log.accessed_account(other_address()));
    assert!(!log.accessed_account(test_address()));
    assert_eq!(log.account_access_count(), 0);
    assert_eq!(log.operations()[0], Operation::CodeAccess { address: other_address() });
    assert_eq!(log.operations()[0].address(), other_address());
}

#[test]
fn a_later_log_is_in_conflict_with_an_earlier_one() {
    let context = create_test_context();
    let slot = U256::from_u64(1);
    let mut earlier = OperationLog::new(0, 64, &context);
    earlier.record_write(test_address(), slot, slot);
    earlier.record_account_access(other_address());
    let mut later = OperationLog::new(1, 64, &context);
    later.record_read(test_address(), slot);
    later.record_account_access(other_address());
    assert_eq!(
        later.detect_conflicts(&earlier),
        Some(Conflict::StorageSlot(test_address(), slot))
    );
    assert_eq!(earlier.detect_conflicts(&later), None);
    assert_eq!(later.detect_conflicts(&later), None);
    let mut accounts_only = OperationLog::new(2, 64, &context);
    accounts_only.record_account_access(other_address());
    assert_eq!(
        accounts_only.detect_conflicts(&earlier),
        Some(Conflict::AccountAccess(other_address()))
    );
    let nothing = OperationLog::new(3, 64, &context);
    assert_eq!(nothing.detect_conflicts(&earlier), None);
}

#[test]
fn a_poisoned_log_is_handed_out_no_more() {
    let context = create_test_context();
    let mut shared = SharedOperationLog::for_transaction(4, 9, &context);
    assert_eq!(shared.tx_index(), 4);
    assert_eq!(shared.read().unwrap().version(), 9);
    assert_eq!(shared.record_account_access(test_address()), Ok(()));
    shared.write().unwrap().record_code_access(other_address());
    assert_eq!(shared.read().unwrap().operations().len(), 2);
    assert_eq!(shared.restart(4, 11), Ok(()));
    assert_eq!(shared.read().unwrap().operations().len(), 0);
    assert_eq!(shared.read().unwrap().version(), 11);
    shared.poison();
    let slot = U256::zero();
    assert_eq!(shared.record_read(test_address(), slot), Err(OperationLogError::LogFinalized));
    assert_eq!(
        shared.record_write(test_address(), slot, slot),
        Err(OperationLogError::LogFinalized)
    );
    assert_eq!(
        shared.record_account_access(test_address()),
        Err(OperationLogError::LogFinalized)
    );
    assert!(matches!(shared.read(), Err(LockPoisoned)));
    assert!(matches!(shared.write(), Err(LockPoisoned)));
    assert_eq!(shared.restart(4, 12), Err(LockPoisoned));
}

#[test]
fn operation_types_compare_by_kind_and_slot() {
    let slot = U256::from_u64(1);
    assert_eq!(OperationType::Read(test_address(), slot), OperationType::Read(test_address(), slot));
    assert_ne!(OperationType::Read(test_address(), slot), OperationType::Write(test_address(), slot));
}
