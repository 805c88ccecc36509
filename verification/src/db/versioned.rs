//! A stack of state versions above a base database. A version holds only what
//! changed in it; a read walks from the current version through its parents and
//! falls back on the base.
//!
//! The base itself lives with the caller: where a read has to go there, the
//! caller is asked to look the slot up, and where a version is committed, the
//! caller is handed the accounts to store.
use crate::collections::KeyMap;
use crate::primitives::{Address, StorageKey, B256, U256};
use std::collections::BTreeMap;
use vstd::prelude::*;

verus! {

/// A slot that was accessed more often than this is hot.
pub const HOT_SLOT_THRESHOLD: u32 = 10;

/// How a storage slot has been used.
#[derive(Clone, Copy, Debug, PartialEq, Eq, Structural)]
pub struct OperationMetadata {
    pub last_read_version: u64,
    pub last_write_version: u64,
    pub access_count: u32,
    pub is_hot_slot: bool,
}

/// An account as a version changed it.
#[derive(Clone, Copy, Debug, PartialEq, Eq, Structural)]
pub struct AccountSnapshot {
    pub balance: U256,
    pub nonce: u64,
    pub code_hash: B256,
}

/// What changed in one version.
#[derive(Debug)]
pub struct StateSnapshot {
    storage_changes: KeyMap<StorageKey, U256>,
    account_changes: KeyMap<Address, AccountSnapshot>,
    parent_version: u64,
}

/// What a version changed, as maps.
#[verifier::ext_equal]
pub struct SnapshotView {
    pub storage: Map<StorageKey, U256>,
    pub accounts: Map<Address, AccountSnapshot>,
    pub parent: u64,
}

impl View for StateSnapshot {
    type V = SnapshotView;

    closed spec fn view(&self) -> SnapshotView {
        SnapshotView {
            storage: self.storage_changes@,
            accounts: self.account_changes@,
            parent: self.parent_version,
        }
    }
}

impl StateSnapshot {
    pub closed spec fn wf(self) -> bool {
        self.storage_changes.wf() && self.account_changes.wf()
    }
}

/// The versions above the base, the one that is current, and the use that was
/// made of each slot.
#[derive(Debug)]
pub struct VersionedStateDB {
    versions: BTreeMap<u64, StateSnapshot>,
    current_version: u64,
    operation_metadata: KeyMap<StorageKey, OperationMetadata>,
}

#[derive(Debug)]
pub enum VersionedStateDBError {
    VersionNotFound(u64),
    DatabaseError(String),
    NoActiveVersion,
}

/// How far a storage read got.
#[derive(Clone, Copy, Debug, PartialEq, Eq, Structural)]
pub enum StorageRead {
    /// A version holds the slot.
    Value(U256),
    /// No version holds it: the base has to be asked, and its answer handed to
    /// `finish_read`.
    AskBase,
}

/// One account to store in the base: some of its slots, or its own fields.
#[derive(Debug)]
pub struct AccountCommit {
    pub address: Address,
    pub storage: Vec<(U256, U256)>,
    pub info: Option<AccountSnapshot>,
}

/// Where a slot is found on the way from a version to the base.
#[derive(Clone, Copy, Debug, PartialEq, Eq, Structural)]
pub enum Resolution {
    /// In this version, with this value.
    Found { version: u64, value: U256 },
    /// In no version: every version down to the base was there.
    Base,
    /// A version on the way is gone.
    Broken,
}

/// The state database as maps.
#[verifier::ext_equal]
pub struct StateView {
    pub versions: Map<u64, SnapshotView>,
    pub current: u64,
    pub metadata: Map<StorageKey, OperationMetadata>,
}

/// How often a slot was accessed so far.
pub open spec fn accesses(metadata: Map<StorageKey, OperationMetadata>, key: StorageKey) -> int {
    if metadata.contains_key(key) {
        metadata[key].access_count as int
    } else {
        0
    }
}

/// The metadata after a read of `key` that was answered from `version`, where 0
/// stands for the base.
pub open spec fn after_read(
    metadata: Map<StorageKey, OperationMetadata>,
    key: StorageKey,
    version: u64,
) -> Map<StorageKey, OperationMetadata> {
    metadata.insert(
        key,
        OperationMetadata {
            last_read_version: version,
            last_write_version: if metadata.contains_key(key) {
                metadata[key].last_write_version
            } else {
                0
            },
            access_count: (accesses(metadata, key) + 1) as u32,
            is_hot_slot: accesses(metadata, key) + 1 > HOT_SLOT_THRESHOLD,
        },
    )
}

/// The metadata after a write of `key` in `version`.
pub open spec fn after_write(
    metadata: Map<StorageKey, OperationMetadata>,
    key: StorageKey,
    version: u64,
) -> Map<StorageKey, OperationMetadata> {
    metadata.insert(
        key,
        OperationMetadata {
            last_read_version: if metadata.contains_key(key) {
                metadata[key].last_read_version
            } else {
                0
            },
            last_write_version: version,
            access_count: (accesses(metadata, key) + 1) as u32,
            is_hot_slot: accesses(metadata, key) + 1 > HOT_SLOT_THRESHOLD,
        },
    )
}

/// The metadata without the slots that were last read or last written in
/// `version`.
pub open spec fn without_version(
    metadata: Map<StorageKey, OperationMetadata>,
    version: u64,
) -> Map<StorageKey, OperationMetadata> {
    Map::new(
        |key: StorageKey|
            metadata.contains_key(key) && metadata[key].last_read_version != version
                && metadata[key].last_write_version != version,
        |key: StorageKey| metadata[key],
    )
}

impl StateView {
    /// Where a read of `key` ends that starts at version `from`.
    pub open spec fn resolve(self, from: u64, key: StorageKey) -> Resolution
        decreases from,
    {
        if from == 0 {
            Resolution::Base
        } else if !self.versions.contains_key(from) {
            Resolution::Broken
        } else if self.versions[from].storage.contains_key(key) {
            Resolution::Found { version: from, value: self.versions[from].storage[key] }
        } else if self.versions[from].parent < from {
            self.resolve(self.versions[from].parent, key)
        } else {
            Resolution::Broken
        }
    }

    /// Whether the chain of parents that starts at a version comes to another one.
    pub open spec fn leads_to(self, from: u64, version: u64) -> bool
        decreases from,
    {
        from == version || (from > 0 && self.versions.contains_key(from)
            && self.versions[from].parent < from && self.leads_to(
            self.versions[from].parent,
            version,
        ))
    }

    /// The parent of a version is the version just below it, and a slot is marked
    /// hot when it was accessed more than `HOT_SLOT_THRESHOLD` times.
    pub open spec fn consistent(self) -> bool {
        &&& forall|v: u64| #[trigger]
            self.versions.contains_key(v) ==> v > 0 && self.versions[v].parent == v - 1
        &&& forall|key: StorageKey| #[trigger]
            self.metadata.contains_key(key) ==> self.metadata[key].is_hot_slot == (
            self.metadata[key].access_count > HOT_SLOT_THRESHOLD)
    }

    /// A fresh version on top of the current one, which becomes current.
    pub open spec fn snapshot(self) -> StateView {
        let version = (self.current + 1) as u64;
        StateView {
            versions: self.versions.insert(
                version,
                SnapshotView {
                    storage: Map::empty(),
                    accounts: Map::empty(),
                    parent: self.current,
                },
            ),
            current: version,
            metadata: self.metadata,
        }
    }

    /// The value of a slot put down in the current version.
    pub open spec fn write(self, key: StorageKey, value: U256) -> StateView {
        let snapshot = self.versions[self.current];
        StateView {
            versions: self.versions.insert(
                self.current,
                SnapshotView { storage: snapshot.storage.insert(key, value), ..snapshot },
            ),
            current: self.current,
            metadata: after_write(self.metadata, key, self.current),
        }
    }
}

/// The commits hold exactly what a version changed: first its slots, gathered
/// into one commit for each account that has any, then its accounts, one commit
/// each.
pub open spec fn commits_of(commits: Seq<AccountCommit>, snapshot: SnapshotView) -> bool {
    exists|n: int|
        0 <= n <= commits.len() && #[trigger] storage_commits_of(commits.take(n), snapshot.storage)
            && info_commits_of(commits.skip(n), snapshot.accounts)
}

/// One commit for each account with changed slots, holding each of them once.
pub open spec fn storage_commits_of(
    commits: Seq<AccountCommit>,
    storage: Map<StorageKey, U256>,
) -> bool {
    &&& forall|i: int|
        0 <= i < commits.len() ==> (#[trigger] commits[i]).info is None && slots_of(
            commits[i].address,
            commits[i].storage@,
            storage,
        ) && commits[i].storage@.len() > 0
    &&& forall|i: int, j: int|
        0 <= i < j < commits.len() ==> (#[trigger] commits[i]).address != (
        #[trigger] commits[j]).address
    &&& forall|key: StorageKey| #[trigger]
        storage.contains_key(key) ==> exists|i: int|
            0 <= i < commits.len() && (#[trigger] commits[i]).address == key.0
}

/// Exactly the changed slots of one account, each once.
pub open spec fn slots_of(
    address: Address,
    slots: Seq<(U256, U256)>,
    storage: Map<StorageKey, U256>,
) -> bool {
    &&& forall|i: int|
        0 <= i < slots.len() ==> storage.contains_key((address, (#[trigger] slots[i]).0))
            && storage[(address, slots[i].0)] == slots[i].1
    &&& forall|i: int, j: int|
        0 <= i < j < slots.len() ==> (#[trigger] slots[i]).0 != (#[trigger] slots[j]).0
    &&& forall|slot: U256| #[trigger]
        storage.contains_key((address, slot)) ==> exists|i: int|
            0 <= i < slots.len() && (#[trigger] slots[i]).0 == slot
}

/// One commit for each changed account.
pub open spec fn info_commits_of(
    commits: Seq<AccountCommit>,
    accounts: Map<Address, AccountSnapshot>,
) -> bool {
    &&& forall|i: int|
        0 <= i < commits.len() ==> (#[trigger] commits[i]).storage@.len() == 0
            && accounts.contains_key(commits[i].address) && commits[i].info == Some(
            accounts[commits[i].address],
        )
    &&& forall|i: int, j: int|
        0 <= i < j < commits.len() ==> (#[trigger] commits[i]).address != (
        #[trigger] commits[j]).address
    &&& forall|address: Address| #[trigger]
        accounts.contains_key(address) ==> exists|i: int|
            0 <= i < commits.len() && (#[trigger] commits[i]).address == address
}

impl View for VersionedStateDB {
    type V = StateView;

    closed spec fn view(&self) -> StateView {
        StateView {
            versions: self.versions@.map_values(|snapshot: StateSnapshot| snapshot@),
            current: self.current_version,
            metadata: self.operation_metadata@,
        }
    }
}

impl VersionedStateDB {
    pub closed spec fn wf(self) -> bool {
        &&& self.operation_metadata.wf()
        &&& forall|v: u64| #[trigger] self.versions@.contains_key(v) ==> self.versions@[v].wf()
        &&& self@.consistent()
    }

    pub fn new() -> (r: Self)
        ensures
            r.wf(),
            r@ == (StateView { versions: Map::empty(), current: 0, metadata: Map::empty() }),
    {
        let r = VersionedStateDB {
            versions: BTreeMap::new(),
            current_version: 0,
            operation_metadata: KeyMap::new(),
        };
        assert(r@.versions =~= Map::empty());
        r
    }

    /// The version that is current.
    pub fn current_version(&self) -> (r: u64)
        ensures
            r == self@.current,
    {
        self.current_version
    }

    /// What is known of the use of a slot.
    pub fn metadata(&self, address: Address, slot: U256) -> (r: Option<OperationMetadata>)
        requires
            self.wf(),
        ensures
            match r {
                Some(m) => self@.metadata.contains_key((address, slot)) && m
                    == self@.metadata[(address, slot)],
                None => !self@.metadata.contains_key((address, slot)),
            },
    {
        match self.operation_metadata.get(&(address, slot)) {
            Some(m) => Some(*m),
            None => None,
        }
    }

    /// Puts a fresh version on top of the current one and makes it current. A
    /// version that already has its number is replaced.
    pub fn create_snapshot(&mut self) -> (r: u64)
        requires
            old(self).wf(),
            old(self)@.current < u64::MAX,
        ensures
            final(self).wf(),
            r == old(self)@.current + 1,
            final(self)@ == old(self)@.snapshot(),
    {
        let new_version: u64 = self.current_version + 1;
        let snapshot = StateSnapshot {
            storage_changes: KeyMap::new(),
            account_changes: KeyMap::new(),
            parent_version: self.current_version,
        };
        let ghost fresh = snapshot@;
        self.versions.insert(new_version, snapshot);
        self.current_version = new_version;
        proof {
            assert(fresh =~= SnapshotView {
                storage: Map::empty(),
                accounts: Map::empty(),
                parent: old(self)@.current,
            });
            assert(self@.versions =~= old(self)@.snapshot().versions);
            assert(self@.metadata =~= old(self)@.metadata);
            assert(self@ =~= old(self)@.snapshot());
        }
        new_version
    }

    /// Makes a version current, if there is one of that number.
    pub fn switch_to_version(&mut self, version: u64) -> (r: Result<(), VersionedStateDBError>)
        requires
            old(self).wf(),
        ensures
            final(self).wf(),
            match r {
                Ok(()) => old(self)@.versions.contains_key(version) && final(self)@ == (StateView {
                    current: version,
                    ..old(self)@
                }),
                Err(e) => !old(self)@.versions.contains_key(version) && e
                    == VersionedStateDBError::VersionNotFound(version) && *final(self) == *old(self),
            },
    {
        if !self.versions.contains_key(&version) {
            return Err(VersionedStateDBError::VersionNotFound(version));
        }
        self.current_version = version;
        assert(self@ =~= StateView { current: version, ..old(self)@ });
        Ok(())
    }

    /// Where a read of a slot ends that starts at the current version.
    pub fn locate(&self, address: Address, slot: U256) -> (r: Resolution)
        requires
            self.wf(),
        ensures
            r == self@.resolve(self@.current, (address, slot)),
    {
        let key = (address, slot);
        let mut current: u64 = self.current_version;
        while current > 0
            invariant
                self.wf(),
                key == (address, slot),
                self@.resolve(self@.current, key) == self@.resolve(current, key),
            decreases current,
        {
            match self.versions.get(&current) {
                Some(snapshot) => {
                    assert(self@.versions.contains_key(current));
                    assert(self@.versions[current] == snapshot@);
                    if let Some(value) = snapshot.storage_changes.get(&key) {
                        return Resolution::Found { version: current, value: *value };
                    }
                    current = snapshot.parent_version;
                },
                None => {
                    assert(!self@.versions.contains_key(current));
                    return Resolution::Broken;
                },
            }
        }
        Resolution::Base
    }

    /// Reads a slot as the current version sees it, and notes the read. Where no
    /// version holds the slot nothing changes yet: the base is to be asked.
    ///
    /// Every version on the way has to be there still: see `locate`.
    pub fn read_storage(&mut self, address: Address, slot: U256) -> (r: StorageRead)
        requires
            old(self).wf(),
            !(old(self)@.resolve(old(self)@.current, (address, slot)) is Broken),
            accesses(old(self)@.metadata, (address, slot)) < u32::MAX,
        ensures
            final(self).wf(),
            match old(self)@.resolve(old(self)@.current, (address, slot)) {
                Resolution::Found { version, value } => r == StorageRead::Value(value)
                    && final(self)@ == (StateView {
                    metadata: after_read(old(self)@.metadata, (address, slot), version),
                    ..old(self)@
                }),
                Resolution::Base => r == StorageRead::AskBase && *final(self) == *old(self),
                Resolution::Broken => false,
            },
    {
        match self.locate(address, slot) {
            Resolution::Found { version, value } => {
                self.update_read_metadata(address, slot, version);
                StorageRead::Value(value)
            },
            _ => StorageRead::AskBase,
        }
    }

    /// Ends a read that had to go to the base with what the base answered: the
    /// value is noted as read from version 0, an error is passed on.
    pub fn finish_read(
        &mut self,
        address: Address,
        slot: U256,
        answer: Result<U256, String>,
    ) -> (r: Result<U256, VersionedStateDBError>)
        requires
            old(self).wf(),
            accesses(old(self)@.metadata, (address, slot)) < u32::MAX,
        ensures
            final(self).wf(),
            match answer {
                Ok(value) => r == Ok::<U256, VersionedStateDBError>(value) && final(self)@ == (
                StateView {
                    metadata: after_read(old(self)@.metadata, (address, slot), 0),
                    ..old(self)@
                }),
                Err(message) => r == Err::<U256, VersionedStateDBError>(
                    VersionedStateDBError::DatabaseError(message),
                ) && *final(self) == *old(self),
            },
    {
        match answer {
            Ok(value) => {
                self.update_read_metadata(address, slot, 0);
                Ok(value)
            },
            Err(message) => Err(VersionedStateDBError::DatabaseError(message)),
        }
    }

    /// Writes a slot in the current version, and notes the write. There is no
    /// current version before the first snapshot, nor after it was committed.
    pub fn write_storage(&mut self, address: Address, slot: U256, value: U256) -> (r: Result<
        (),
        VersionedStateDBError,
    >)
        requires
            old(self).wf(),
            accesses(old(self)@.metadata, (address, slot)) < u32::MAX,
        ensures
            final(self).wf(),
            match r {
                Ok(()) => old(self)@.versions.contains_key(old(self)@.current) && final(self)@
                    == old(self)@.write((address, slot), value),
                Err(e) => !old(self)@.versions.contains_key(old(self)@.current) && e
                    == VersionedStateDBError::NoActiveVersion && final(self)@ == old(self)@,
            },
    {
        let version: u64 = self.current_version;
        match self.versions.remove(&version) {
            Some(mut snapshot) => {
                let ghost before = snapshot@;
                snapshot.storage_changes.insert((address, slot), value);
                let ghost after = snapshot@;
                self.versions.insert(version, snapshot);
                proof {
                    assert(old(self)@.versions.contains_key(version));
                    assert(old(self)@.versions[version] == before);
                    assert(after =~= SnapshotView {
                        storage: before.storage.insert((address, slot), value),
                        ..before
                    });
                    assert(self@.versions =~= old(self)@.write((address, slot), value).versions);
                }
                self.update_write_metadata(address, slot, version);
                assert(self@ =~= old(self)@.write((address, slot), value));
                Ok(())
            },
            None => {
                assert(self.versions@ =~= old(self).versions@);
                assert(self@ =~= old(self)@);
                Err(VersionedStateDBError::NoActiveVersion)
            },
        }
    }

    fn update_read_metadata(&mut self, address: Address, slot: U256, version: u64)
        requires
            old(self).wf(),
            accesses(old(self)@.metadata, (address, slot)) < u32::MAX,
        ensures
            final(self).wf(),
            final(self)@ == (StateView {
                metadata: after_read(old(self)@.metadata, (address, slot), version),
                ..old(self)@
            }),
    {
        let mut metadata = match self.operation_metadata.get(&(address, slot)) {
            Some(m) => *m,
            None => OperationMetadata {
                last_read_version: version,
                last_write_version: 0,
                access_count: 0,
                is_hot_slot: false,
            },
        };
        metadata.last_read_version = version;
        metadata.access_count = metadata.access_count + 1;
        metadata.is_hot_slot = metadata.access_count > HOT_SLOT_THRESHOLD;
        self.operation_metadata.insert((address, slot), metadata);
        assert(self@ =~= StateView {
            metadata: after_read(old(self)@.metadata, (address, slot), version),
            ..old(self)@
        });
    }

    fn update_write_metadata(&mut self, address: Address, slot: U256, version: u64)
        requires
            old(self).wf(),
            accesses(old(self)@.metadata, (address, slot)) < u32::MAX,
        ensures
            final(self).wf(),
            final(self)@ == (StateView {
                metadata: after_write(old(self)@.metadata, (address, slot), version),
                ..old(self)@
            }),
    {
        let mut metadata = match self.operation_metadata.get(&(address, slot)) {
            Some(m) => *m,
            None => OperationMetadata {
                last_read_version: 0,
                last_write_version: version,
                access_count: 0,
                is_hot_slot: false,
            },
        };
        metadata.last_write_version = version;
        metadata.access_count = metadata.access_count + 1;
        metadata.is_hot_slot = metadata.access_count > HOT_SLOT_THRESHOLD;
        self.operation_metadata.insert((address, slot), metadata);
        assert(self@ =~= StateView {
            metadata: after_write(old(self)@.metadata, (address, slot), version),
            ..old(self)@
        });
    }

    /// Takes a version out and hands over what it changed, to be stored in the
    /// base in this order. The metadata of the slots that were last read or
    /// written in it goes with it.
    pub fn commit_version(&mut self, version: u64) -> (r: Result<
        Vec<AccountCommit>,
        VersionedStateDBError,
    >)
        requires
            old(self).wf(),
        ensures
            final(self).wf(),
            match r {
                Ok(commits) => old(self)@.versions.contains_key(version) && commits_of(
                    commits@,
                    old(self)@.versions[version],
                ) && final(self)@ == (StateView {
                    versions: old(self)@.versions.remove(version),
                    current: old(self)@.current,
                    metadata: without_version(old(self)@.metadata, version),
                }),
                Err(e) => !old(self)@.versions.contains_key(version) && e
                    == VersionedStateDBError::VersionNotFound(version) && final(self)@ == old(self)@,
            },
    {
        match self.versions.remove(&version) {
            Some(snapshot) => {
                assert(old(self)@.versions.contains_key(version));
                assert(old(self)@.versions[version] == snapshot@);
                assert(self@.versions =~= old(self)@.versions.remove(version));
                assert(self@.metadata =~= old(self)@.metadata);
                let mut commits = storage_commits(&snapshot.storage_changes);
                let ghost n = commits@.len() as int;
                let mut infos = info_commits(&snapshot.account_changes);
                let ghost storage_part = commits@;
                let ghost info_part = infos@;
                commits.append(&mut infos);
                self.forget_version(version);
                proof {
                    assert(commits@.take(n) =~= storage_part);
                    assert(commits@.skip(n) =~= info_part);
                    assert(storage_commits_of(commits@.take(n), snapshot@.storage));
                }
                Ok(commits)
            },
            None => {
                assert(self.versions@ =~= old(self).versions@);
                assert(self@ =~= old(self)@);
                Err(VersionedStateDBError::VersionNotFound(version))
            },
        }
    }

    /// Drops the metadata of the slots that were last read or written in a
    /// version.
    fn forget_version(&mut self, version: u64)
        requires
            old(self).wf(),
        ensures
            final(self).wf(),
            final(self)@ == (StateView {
                metadata: without_version(old(self)@.metadata, version),
                ..old(self)@
            }),
    {
        let mut kept: KeyMap<StorageKey, OperationMetadata> = KeyMap::new();
        let ghost all = self.operation_metadata@;
        let ghost order = self.operation_metadata.order();
        let count = self.operation_metadata.len();
        for i in 0..count
            invariant
                count == order.len(),
                *self == *old(self),
                kept.wf(),
                self.operation_metadata.wf(),
                all == self.operation_metadata@,
                order == self.operation_metadata.order(),
                kept@ == Map::<StorageKey, OperationMetadata>::new(
                    |key: StorageKey|
                        order.take(i as int).contains(key) && without_version(
                            all,
                            version,
                        ).contains_key(key),
                    |key: StorageKey| all[key],
                ),
        {
            let key = self.operation_metadata.key_at(i);
            let m = *self.operation_metadata.value_at(i);
            let ghost before = kept@;
            if m.last_read_version != version && m.last_write_version != version {
                kept.insert(key, m);
            }
            proof {
                assert(order.take(i + 1) =~= order.take(i as int).push(key));
                assert forall|k: StorageKey|
                    order.take(i + 1).contains(k) == (order.take(i as int).contains(k) || k
                        == key) by {
                    let s = order.take(i as int);
                    if s.contains(k) {
                        let w = s.index_of(k);
                        assert(s.push(key)[w] == k);
                    }
                    if k == key {
                        assert(s.push(key)[i as int] == k);
                    }
                }
                assert(kept@ =~= Map::<StorageKey, OperationMetadata>::new(
                    |k: StorageKey|
                        order.take(i + 1).contains(k) && without_version(all, version).contains_key(
                            k,
                        ),
                    |k: StorageKey| all[k],
                ));
            }
        }
        proof {
            assert(order.take(order.len() as int) =~= order);
            self.operation_metadata.lemma_order();
            assert forall|k: StorageKey| all.contains_key(k) implies order.contains(k) by {
                assert(order.to_set().contains(k));
            }
            assert(kept@ =~= without_version(all, version));
        }
        self.operation_metadata = kept;
        assert(self@ =~= StateView {
            metadata: without_version(old(self)@.metadata, version),
            ..old(self)@
        });
    }
}

/// Gathers changed slots into one commit for each account.
fn storage_commits(changes: &KeyMap<StorageKey, U256>) -> (r: Vec<AccountCommit>)
    requires
        changes.wf(),
    ensures
        storage_commits_of(r@, changes@),
{
    let mut commits: Vec<AccountCommit> = Vec::new();
    let ghost order = changes.order();
    let count = changes.len();
    assert(changes@.restrict(order.take(0).to_set()) =~= Map::empty());
    for i in 0..count
        invariant
            changes.wf(),
            order == changes.order(),
            count == order.len(),
            storage_commits_of(commits@, changes@.restrict(order.take(i as int).to_set())),
    {
        let (address, slot) = changes.key_at(i);
        let value = *changes.value_at(i);
        let ghost seen = changes@.restrict(order.take(i as int).to_set());
        let ghost next = changes@.restrict(order.take(i + 1).to_set());
        proof {
            changes.lemma_order();
            assert(order.take(i + 1) =~= order.take(i as int).push((address, slot)));
            order.take(i as int).lemma_push_to_set_commute((address, slot));
            assert(next =~= seen.insert((address, slot), value));
            assert(!seen.contains_key((address, slot)));
        }
        add_slot(&mut commits, address, slot, value, Ghost(seen));
    }
    proof {
        changes.lemma_order();
        assert(order.take(order.len() as int) =~= order);
        assert(changes@.restrict(order.to_set()) =~= changes@);
    }
    commits
}

/// Adds one more changed slot to the commits.
fn add_slot(
    commits: &mut Vec<AccountCommit>,
    address: Address,
    slot: U256,
    value: U256,
    Ghost(seen): Ghost<Map<StorageKey, U256>>,
)
    requires
        storage_commits_of(old(commits)@, seen),
        !seen.contains_key((address, slot)),
    ensures
        storage_commits_of(final(commits)@, seen.insert((address, slot), value)),
{
    let ghost before = commits@;
    let ghost next = seen.insert((address, slot), value);
    let n = commits.len();
    for j in 0..n
        invariant
            commits@ == before,
            n == before.len(),
            storage_commits_of(before, seen),
            !seen.contains_key((address, slot)),
            next == seen.insert((address, slot), value),
            forall|k: int| 0 <= k < j ==> (#[trigger] before[k]).address != address,
    {
        if commits[j].address == address {
            commits[j].storage.push((slot, value));
            proof {
                let after = commits@;
                let old_slots = before[j as int].storage@;
                let new_slots = after[j as int].storage@;
                assert(new_slots == old_slots.push((slot, value)));
                assert forall|k: int| 0 <= k < after.len() implies (
                #[trigger] after[k]).info is None && slots_of(after[k].address, after[k].storage@, next)
                    && after[k].storage@.len() > 0 by {
                    assert(slots_of(before[k].address, before[k].storage@, seen));
                    if k == j {
                        assert(forall|m: int|
                            0 <= m < old_slots.len() ==> new_slots[m] == old_slots[m]);
                        assert forall|s: U256| #[trigger]
                            next.contains_key((address, s)) implies exists|m: int|
                            0 <= m < new_slots.len() && (#[trigger] new_slots[m]).0 == s by {
                            if s == slot {
                                assert(new_slots[old_slots.len() as int].0 == s);
                            } else {
                                assert(seen.contains_key((address, s)));
                                let m = choose|m: int|
                                    0 <= m < old_slots.len() && (#[trigger] old_slots[m]).0 == s;
                                assert(new_slots[m].0 == s);
                            }
                        }
                    } else {
                        assert(after[k] == before[k]);
                        assert(before[k].address != address);
                        assert forall|s: U256| #[trigger]
                            next.contains_key((after[k].address, s)) implies seen.contains_key(
                            (after[k].address, s),
                        ) by {}
                    }
                }
                assert forall|key: StorageKey| #[trigger]
                    next.contains_key(key) implies exists|k: int|
                    0 <= k < after.len() && (#[trigger] after[k]).address == key.0 by {
                    if key == (address, slot) {
                        assert(after[j as int].address == key.0);
                    } else {
                        assert(seen.contains_key(key));
                        let k = choose|k: int|
                            0 <= k < before.len() && (#[trigger] before[k]).address == key.0;
                        assert(after[k].address == key.0);
                    }
                }
            }
            return ;
        }
    }
    let mut storage: Vec<(U256, U256)> = Vec::new();
    storage.push((slot, value));
    let ghost fresh = storage@;
    commits.push(AccountCommit { address, storage, info: None });
    proof {
        let after = commits@;
        assert(fresh == seq![(slot, value)]);
        assert forall|s: U256| !seen.contains_key((address, s)) by {
            if seen.contains_key((address, s)) {
                let k = choose|k: int|
                    0 <= k < before.len() && (#[trigger] before[k]).address == (address, s).0;
                assert(before[k].address == address);
            }
        }
        assert forall|k: int| 0 <= k < after.len() implies (#[trigger] after[k]).info is None
            && slots_of(after[k].address, after[k].storage@, next) && after[k].storage@.len() > 0 by {
            if k < n {
                assert(after[k] == before[k]);
                assert(slots_of(before[k].address, before[k].storage@, seen));
                assert forall|s: U256| #[trigger]
                    next.contains_key((after[k].address, s)) implies seen.contains_key(
                    (after[k].address, s),
                ) by {}
            } else {
                assert forall|s: U256| #[trigger]
                    next.contains_key((address, s)) implies exists|m: int|
                    0 <= m < fresh.len() && (#[trigger] fresh[m]).0 == s by {
                    assert(fresh[0].0 == s);
                }
            }
        }
        assert forall|key: StorageKey| #[trigger]
            next.contains_key(key) implies exists|k: int|
            0 <= k < after.len() && (#[trigger] after[k]).address == key.0 by {
            if key == (address, slot) {
                assert(after[n as int].address == key.0);
            } else {
                let k = choose|k: int|
                    0 <= k < before.len() && (#[trigger] before[k]).address == key.0;
                assert(after[k].address == key.0);
            }
        }
    }
}

/// One commit for each changed account.
fn info_commits(changes: &KeyMap<Address, AccountSnapshot>) -> (r: Vec<AccountCommit>)
    requires
        changes.wf(),
    ensures
        info_commits_of(r@, changes@),
{
    let mut commits: Vec<AccountCommit> = Vec::new();
    let ghost order = changes.order();
    let count = changes.len();
    for i in 0..count
        invariant
            changes.wf(),
            order == changes.order(),
            count == order.len(),
            commits@.len() == i,
            forall|j: int|
                0 <= j < i ==> (#[trigger] commits@[j]).address == order[j]
                    && commits@[j].storage@.len() == 0 && changes@.contains_key(order[j])
                    && commits@[j].info == Some(changes@[order[j]]),
    {
        let address = changes.key_at(i);
        let info = *changes.value_at(i);
        commits.push(AccountCommit { address, storage: Vec::new(), info: Some(info) });
    }
    proof {
        changes.lemma_order();
        assert forall|address: Address| #[trigger] changes@.contains_key(address) implies exists|
            i: int,
        |
            0 <= i < commits@.len() && (#[trigger] commits@[i]).address == address by {
            assert(order.to_set().contains(address));
            let w = order.index_of(address);
            assert(commits@[w].address == address);
        }
    }
    commits
}

/// A read looks at no version above the one it starts from.
proof fn lemma_resolve_looks_down(s: StateView, t: StateView, from: u64, key: StorageKey)
    requires
        forall|v: u64|
            v <= from ==> s.versions.contains_key(v) == #[trigger] t.versions.contains_key(v),
        forall|v: u64|
            v <= from && #[trigger] t.versions.contains_key(v) ==> s.versions[v] == t.versions[v],
    ensures
        s.resolve(from, key) == t.resolve(from, key),
    decreases from,
{
    if from > 0 && t.versions.contains_key(from) && !t.versions[from].storage.contains_key(key)
        && t.versions[from].parent < from {
        lemma_resolve_looks_down(s, t, t.versions[from].parent, key);
    }
}

/// What a read finds is the newest value on the way down: it stands in a version
/// such that every version above it, up to the starting one, is there and does
/// not hold the slot. The base is reached exactly when every version is there
/// and none holds the slot.
pub proof fn law_read_finds_newest(s: StateView, from: u64, key: StorageKey)
    requires
        s.consistent(),
    ensures
        forall|version: u64, value: U256|
            s.resolve(from, key) == (Resolution::Found { version, value }) <==> (0 < version <= from
                && s.versions.contains_key(version) && s.versions[version].storage.contains_key(key)
                && s.versions[version].storage[key] == value && forall|v: u64|
                version < v <= from ==> #[trigger] s.versions.contains_key(v)
                    && !s.versions[v].storage.contains_key(key)),
        s.resolve(from, key) == Resolution::Base <==> forall|v: u64|
            0 < v <= from ==> #[trigger] s.versions.contains_key(v)
                && !s.versions[v].storage.contains_key(key),
    decreases from,
{
    if from > 0 && s.versions.contains_key(from) && !s.versions[from].storage.contains_key(key) {
        law_read_finds_newest(s, s.versions[from].parent, key);
    }
}

/// A write is read back in the version it was made in, and no other slot reads
/// differently for it.
pub proof fn law_write_is_read_back(s: StateView, key: StorageKey, value: U256, other: StorageKey)
    requires
        s.consistent(),
        s.versions.contains_key(s.current),
    ensures
        s.write(key, value).current == s.current,
        s.write(key, value).resolve(s.current, key) == (Resolution::Found {
            version: s.current,
            value,
        }),
        other != key ==> s.write(key, value).resolve(s.current, other) == s.resolve(
            s.current,
            other,
        ),
{
    if other != key && !s.versions[s.current].storage.contains_key(other) {
        lemma_resolve_looks_down(
            s,
            s.write(key, value),
            s.versions[s.current].parent,
            other,
        );
    }
}

/// A write changes no other slot, whatever version it is read from.
pub proof fn law_write_leaves_other_slots(
    s: StateView,
    key: StorageKey,
    value: U256,
    from: u64,
    other: StorageKey,
)
    requires
        s.versions.contains_key(s.current),
        other != key,
    ensures
        s.write(key, value).resolve(from, other) == s.resolve(from, other),
    decreases from,
{
    if from > 0 && s.versions.contains_key(from) && !s.versions[from].storage.contains_key(other)
        && s.versions[from].parent < from {
        law_write_leaves_other_slots(s, key, value, s.versions[from].parent, other);
    }
}

/// A write changes nothing for a version whose chain of parents does not come to the
/// version that it was made in.
proof fn lemma_write_off_the_chain(
    s: StateView,
    key: StorageKey,
    value: U256,
    from: u64,
    slot: StorageKey,
)
    requires
        !s.leads_to(from, s.current),
    ensures
        s.write(key, value).resolve(from, slot) == s.resolve(from, slot),
    decreases from,
{
    if from > 0 && s.versions.contains_key(from) && !s.versions[from].storage.contains_key(slot)
        && s.versions[from].parent < from {
        lemma_write_off_the_chain(s, key, value, s.versions[from].parent, slot);
    }
}

/// After a write and a switch to any version: from the version of the write the value
/// is read back; from a version whose chain of parents does not come to it, the slot
/// reads as before; and every other slot reads as before from every version.
pub proof fn law_a_write_is_seen_from_its_version_only(
    s: StateView,
    key: StorageKey,
    value: U256,
    switched: StateView,
    other: StorageKey,
)
    requires
        s.versions.contains_key(s.current),
        s.current > 0,
        switched == (StateView { current: switched.current, ..s.write(key, value) }),
    ensures
        switched.current == s.current ==> switched.resolve(switched.current, key) == (
        Resolution::Found { version: s.current, value }),
        !s.leads_to(switched.current, s.current) ==> switched.resolve(switched.current, key)
            == s.resolve(switched.current, key),
        other != key ==> switched.resolve(switched.current, other) == s.resolve(
            switched.current,
            other,
        ),
{
    let from = switched.current;
    lemma_resolve_looks_down(switched, s.write(key, value), from, key);
    lemma_resolve_looks_down(switched, s.write(key, value), from, other);
    if !s.leads_to(from, s.current) {
        lemma_write_off_the_chain(s, key, value, from, key);
    }
    if other != key {
        law_write_leaves_other_slots(s, key, value, from, other);
    }
}

/// A fresh snapshot reads as the version below it does.
pub proof fn law_snapshot_reads_as_parent(s: StateView, key: StorageKey)
    requires
        s.consistent(),
        s.current < u64::MAX,
    ensures
        s.snapshot().resolve(s.snapshot().current, key) == s.resolve(s.current, key),
{
    lemma_resolve_looks_down(s, s.snapshot(), s.current, key);
}

/// A write leaves every older version as it reads.
pub proof fn law_write_leaves_older_versions(
    s: StateView,
    key: StorageKey,
    value: U256,
    from: u64,
    other: StorageKey,
)
    requires
        from < s.current,
    ensures
        s.write(key, value).resolve(from, other) == s.resolve(from, other),
{
    lemma_resolve_looks_down(s, s.write(key, value), from, other);
}

/// What is written in a fresh snapshot is out of sight again once the version
/// below is current again.
pub proof fn law_switching_back_hides_writes(
    s: StateView,
    key: StorageKey,
    value: U256,
    other: StorageKey,
)
    requires
        s.current < u64::MAX,
    ensures
        s.snapshot().write(key, value).resolve(s.current, other) == s.resolve(s.current, other),
{
    lemma_resolve_looks_down(s, s.snapshot().write(key, value), s.current, other);
}

/// Taking a version out leaves every version below it as it reads.
pub proof fn law_commit_leaves_lower_versions(
    s: StateView,
    version: u64,
    from: u64,
    key: StorageKey,
)
    requires
        from < version,
    ensures
        (StateView { versions: s.versions.remove(version), ..s }).resolve(from, key) == s.resolve(
            from,
            key,
        ),
{
    lemma_resolve_looks_down(
        s,
        StateView { versions: s.versions.remove(version), ..s },
        from,
        key,
    );
}

/// In a well-formed state every version stands on the one just below it, none has the
/// number 0, and the marks of hot slots are right.
pub proof fn law_wf_is_consistent(db: VersionedStateDB)
    requires
        db.wf(),
    ensures
        db@.consistent(),
        !db@.versions.contains_key(0),
{
}

} // verus!
