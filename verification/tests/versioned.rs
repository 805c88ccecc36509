use optimism::db::versioned::{
    Resolution, StorageRead, VersionedStateDB, VersionedStateDBError, HOT_SLOT_THRESHOLD,
};
use optimism::primitives::{Address, U256};

fn account(n: u128) -> Address {
    Address { hi: 0, lo: n }
}

fn word(n: u64) -> U256 {
    U256::from_u64(n)
}

#[test]
fn a_write_is_read_back() {
    let mut db = VersionedStateDB::new();
    assert_eq!(db.create_snapshot(), 1);
    db.write_storage(account(1), word(5), word(42)).unwrap();
    assert_eq!(db.read_storage(account(1), word(5)), StorageRead::Value(word(42)));
    assert_eq!(db.read_storage(account(1), word(6)), StorageRead::AskBase);
    assert_eq!(db.read_storage(account(2), word(5)), StorageRead::AskBase);
}

#[test]
fn a_fresh_version_reads_as_its_parent() {
    let mut db = VersionedStateDB::new();
    db.create_snapshot();
    db.write_storage(account(1), word(5), word(42)).unwrap();
    assert_eq!(db.create_snapshot(), 2);
    assert_eq!(db.locate(account(1), word(5)), Resolution::Found { version: 1, value: word(42) });
    db.write_storage(account(1), word(5), word(43)).unwrap();
    assert_eq!(db.locate(account(1), word(5)), Resolution::Found { version: 2, value: word(43) });
    assert_eq!(db.locate(account(1), word(6)), Resolution::Base);
}

#[test]
fn switching_back_hides_later_writes() {
    let mut db = VersionedStateDB::new();
    db.create_snapshot();
    db.write_storage(account(1), word(5), word(42)).unwrap();
    db.create_snapshot();
    db.write_storage(account(1), word(5), word(43)).unwrap();
    db.switch_to_version(1).unwrap();
    assert_eq!(db.current_version(), 1);
    assert_eq!(db.read_storage(account(1), word(5)), StorageRead::Value(word(42)));
    db.switch_to_version(2).unwrap();
    assert_eq!(db.read_storage(account(1), word(5)), StorageRead::Value(word(43)));
}

#[test]
fn a_version_that_is_not_there_cannot_be_switched_to() {
    let mut db = VersionedStateDB::new();
    assert!(matches!(db.switch_to_version(0), Err(VersionedStateDBError::VersionNotFound(0))));
    db.create_snapshot();
    assert!(matches!(db.switch_to_version(2), Err(VersionedStateDBError::VersionNotFound(2))));
    assert_eq!(db.current_version(), 1);
}

#[test]
fn writing_needs_a_version() {
    let mut db = VersionedStateDB::new();
    assert!(matches!(
        db.write_storage(account(1), word(5), word(42)),
        Err(VersionedStateDBError::NoActiveVersion)
    ));
}

#[test]
fn the_base_answers_what_no_version_holds() {
    let mut db = VersionedStateDB::new();
    db.create_snapshot();
    assert_eq!(db.read_storage(account(1), word(5)), StorageRead::AskBase);
    assert_eq!(db.finish_read(account(1), word(5), Ok(word(9))).unwrap(), word(9));
    let metadata = db.metadata(account(1), word(5)).unwrap();
    assert_eq!(metadata.access_count, 1);
    assert_eq!(metadata.last_read_version, 0);
    match db.finish_read(account(1), word(6), Err(String::from("down"))) {
        Err(VersionedStateDBError::DatabaseError(reason)) => assert_eq!(reason, "down"),
        other => panic!("{:?}", other),
    }
    assert_eq!(db.metadata(account(1), word(6)), None);
}

#[test]
fn a_slot_gets_hot_after_more_than_ten_accesses() {
    let mut db = VersionedStateDB::new();
    db.create_snapshot();
    for _ in 0..HOT_SLOT_THRESHOLD {
        db.write_storage(account(1), word(5), word(1)).unwrap();
    }
    let metadata = db.metadata(account(1), word(5)).unwrap();
    assert_eq!(metadata.access_count, 10);
    assert!(!metadata.is_hot_slot);
    db.read_storage(account(1), word(5));
    let metadata = db.metadata(account(1), word(5)).unwrap();
    assert_eq!(metadata.access_count, 11);
    assert!(metadata.is_hot_slot);
    assert_eq!((metadata.last_read_version, metadata.last_write_version), (1, 1));
}

#[test]
fn a_commit_hands_out_what_a_version_changed() {
    let mut db = VersionedStateDB::new();
    db.create_snapshot();
    db.write_storage(account(1), word(5), word(50)).unwrap();
    db.create_snapshot();
    db.write_storage(account(1), word(6), word(60)).unwrap();
    db.write_storage(account(2), word(5), word(55)).unwrap();
    db.write_storage(account(1), word(7), word(70)).unwrap();
    let commits = db.commit_version(2).unwrap();
    assert_eq!(commits.len(), 2);
    let mut slots = Vec::new();
    for commit in &commits {
        assert_eq!(commit.info, None);
        for (slot, value) in &commit.storage {
            slots.push((commit.address, *slot, *value));
        }
    }
    assert_eq!(slots.len(), 3);
    assert!(slots.contains(&(account(1), word(6), word(60))));
    assert!(slots.contains(&(account(1), word(7), word(70))));
    assert!(slots.contains(&(account(2), word(5), word(55))));
    assert!(db.metadata(account(1), word(6)).is_none());
    assert!(db.metadata(account(1), word(5)).is_some());
    assert!(matches!(db.commit_version(2), Err(VersionedStateDBError::VersionNotFound(2))));
    db.switch_to_version(1).unwrap();
    assert_eq!(db.read_storage(account(1), word(5)), StorageRead::Value(word(50)));
}

#[test]
fn a_read_below_a_committed_version_finds_the_way_broken() {
    let mut db = VersionedStateDB::new();
    db.create_snapshot();
    db.create_snapshot();
    db.commit_version(1).unwrap();
    assert_eq!(db.locate(account(1), word(5)), Resolution::Broken);
}

#[test]
fn a_write_in_an_older_version_leaves_other_slots_of_later_ones() {
    let mut db = VersionedStateDB::new();
    db.create_snapshot();
    db.write_storage(account(1), word(5), word(50)).unwrap();
    db.create_snapshot();
    db.write_storage(account(1), word(6), word(60)).unwrap();
    db.switch_to_version(1).unwrap();
    db.write_storage(account(1), word(7), word(70)).unwrap();
    db.switch_to_version(2).unwrap();
    assert_eq!(db.read_storage(account(1), word(5)), StorageRead::Value(word(50)));
    assert_eq!(db.read_storage(account(1), word(6)), StorageRead::Value(word(60)));
    assert_eq!(db.read_storage(account(1), word(7)), StorageRead::Value(word(70)));
    assert_eq!(db.read_storage(account(1), word(8)), StorageRead::AskBase);
}
