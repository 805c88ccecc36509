//! What a read of the versioned state sees, and what each change to it leaves alone.
use crate::db::versioned::{
    accesses, after_read, after_write, commits_of, without_version, AccountCommit, OperationMetadata,
    Resolution, SnapshotView, StateView,
};
use crate::primitives::{Address, StorageKey, U256};
use vstd::prelude::*;

verus! {

/// Whether every version stands on the one before it.
pub open spec fn stacked(s: StateView) -> bool {
    forall|v: u64| #[trigger]
        s.versions.contains_key(v) ==> v > 0 && s.versions[v].parent == v - 1
}

/// Whether a version is there and holds a slot.
pub open spec fn holds(s: StateView, version: int, key: StorageKey) -> bool {
    s.versions.contains_key(version as u64) && s.versions[version as u64].storage.contains_key(key)
}

/// Whether a version is there and does not hold a slot.
pub open spec fn passes(s: StateView, version: int, key: StorageKey) -> bool {
    s.versions.contains_key(version as u64) && !s.versions[version as u64].storage.contains_key(key)
}

/// A read finds the slot in the newest version at or below where it starts that holds it, if
/// every version on the way is there; it comes to the base if all versions are there and none
/// holds the slot; and it breaks off at the first version that is not there.
pub proof fn law_where_a_read_ends(s: StateView, from: u64, key: StorageKey)
    requires
        stacked(s),
    ensures
        match s.resolve(from, key) {
            Resolution::Found { version, value } => {
                &&& 0 < version <= from
                &&& holds(s, version as int, key)
                &&& value == s.versions[version].storage[key]
                &&& forall|w: int| version < w <= from ==> #[trigger] passes(s, w, key)
            },
            Resolution::Base => forall|w: int| 0 < w <= from ==> #[trigger] passes(s, w, key),
            Resolution::Broken => exists|v: int|
                0 < v <= from && !s.versions.contains_key(v as u64) && (forall|w: int|
                    v < w <= from ==> #[trigger] passes(s, w, key)) && #[trigger] is_version(v),
        },
    decreases from,
{
    if from > 0 && s.versions.contains_key(from) {
        assert(!s.versions[from].storage.contains_key(key) ==> passes(s, from as int, key));
        if !s.versions[from].storage.contains_key(key) {
            law_where_a_read_ends(s, (from - 1) as u64, key);
            if s.resolve((from - 1) as u64, key) is Broken {
                let v = choose|v: int|
                    0 < v <= from - 1 && !s.versions.contains_key(v as u64) && (forall|w: int|
                        v < w <= from - 1 ==> #[trigger] passes(s, w, key)) && #[trigger] is_version(
                        v,
                    );
                assert(is_version(v));
            }
        }
    } else if from > 0 {
        assert(is_version(from as int));
    }
}

/// Whether a number can be that of a version.
pub open spec fn is_version(v: int) -> bool {
    0 <= v <= u64::MAX
}

/// One version leads down to another exactly if it is not below it and every version above
/// the other, up to itself, is there.
pub proof fn law_when_a_version_leads_to_another(s: StateView, from: u64, version: u64)
    requires
        stacked(s),
    ensures
        s.leads_to(from, version) <==> version <= from && forall|w: u64|
            version < w <= from ==> #[trigger] s.versions.contains_key(w),
    decreases from,
{
    if from != version && from > 0 {
        law_when_a_version_leads_to_another(s, (from - 1) as u64, version);
    }
}

/// A new version takes the next number, holds nothing and stands on the version that was
/// current; nothing else changes.
pub proof fn law_a_snapshot_starts_empty(s: StateView)
    requires
        s.current < u64::MAX,
    ensures
        s.snapshot().current == s.current + 1,
        s.snapshot().versions.contains_key((s.current + 1) as u64),
        s.snapshot().versions[(s.current + 1) as u64].parent == s.current,
        forall|key: StorageKey|
            !s.snapshot().versions[s.snapshot().current].storage.contains_key(key),
        forall|account: Address|
            !s.snapshot().versions[s.snapshot().current].accounts.contains_key(account),
        forall|v: u64|
            v != s.current + 1 ==> (#[trigger] s.snapshot().versions.contains_key(v)
                <==> s.versions.contains_key(v)),
        forall|v: u64|
            v != s.current + 1 && s.versions.contains_key(v) ==> #[trigger] s.snapshot().versions[v]
                == s.versions[v],
        s.snapshot().metadata == s.metadata,
{
}

/// A write puts the value into the current version, under its slot, and notes one more access
/// to the slot, a write by that version; no other slot, version, account or note changes.
pub proof fn law_a_write_changes_one_slot(s: StateView, key: StorageKey, value: U256)
    requires
        s.versions.contains_key(s.current),
        s.metadata.contains_key(key) ==> s.metadata[key].access_count < u32::MAX,
    ensures
        s.write(key, value).current == s.current,
        forall|v: u64| #[trigger]
            s.write(key, value).versions.contains_key(v) <==> s.versions.contains_key(v),
        forall|v: u64|
            v != s.current && s.versions.contains_key(v) ==> #[trigger] s.write(
                key,
                value,
            ).versions[v] == s.versions[v],
        s.write(key, value).versions[s.current].parent == s.versions[s.current].parent,
        s.write(key, value).versions[s.current].accounts == s.versions[s.current].accounts,
        s.write(key, value).versions[s.current].storage.contains_key(key),
        s.write(key, value).versions[s.current].storage[key] == value,
        forall|other: StorageKey|
            other != key ==> (#[trigger] s.write(
                key,
                value,
            ).versions[s.current].storage.contains_key(other)
                <==> s.versions[s.current].storage.contains_key(other)),
        forall|other: StorageKey|
            other != key && s.versions[s.current].storage.contains_key(other)
                ==> #[trigger] s.write(key, value).versions[s.current].storage[other]
                == s.versions[s.current].storage[other],
        s.write(key, value).metadata.contains_key(key),
        s.write(key, value).metadata[key].last_write_version == s.current,
        s.write(key, value).metadata[key].access_count == (if s.metadata.contains_key(key) {
            s.metadata[key].access_count + 1
        } else {
            1
        }),
{
}

/// An access to a slot is counted and noted with its version, as a read or as a write, and
/// leaves the note of the other kind; a slot is hot from its eleventh access on; the notes of
/// other slots stay.
pub proof fn law_how_accesses_are_noted(
    metadata: Map<StorageKey, OperationMetadata>,
    key: StorageKey,
    version: u64,
    other: StorageKey,
)
    requires
        metadata.contains_key(key) ==> metadata[key].access_count < u32::MAX,
    ensures
        ({
            let count: int = if metadata.contains_key(key) {
                metadata[key].access_count as int
            } else {
                0
            };
            let read = after_read(metadata, key, version);
            let written = after_write(metadata, key, version);
            &&& read.contains_key(key) && written.contains_key(key)
            &&& read[key].access_count == count + 1 && written[key].access_count == count + 1
            &&& read[key].is_hot_slot <==> count + 1 > 10
            &&& written[key].is_hot_slot <==> count + 1 > 10
            &&& read[key].last_read_version == version
            &&& written[key].last_write_version == version
            &&& read[key].last_write_version == if metadata.contains_key(key) {
                metadata[key].last_write_version
            } else {
                0
            }
            &&& written[key].last_read_version == if metadata.contains_key(key) {
                metadata[key].last_read_version
            } else {
                0
            }
            &&& other != key ==> (read.contains_key(other) <==> metadata.contains_key(other)) && (
            written.contains_key(other) <==> metadata.contains_key(other))
            &&& other != key && metadata.contains_key(other) ==> read[other] == metadata[other]
                && written[other] == metadata[other]
        }),
{
}

/// To forget a version is to drop the note of every slot that it was the last to read or to
/// write, and of no other.
pub proof fn law_which_notes_a_dropped_version_takes(
    metadata: Map<StorageKey, OperationMetadata>,
    version: u64,
    key: StorageKey,
)
    ensures
        without_version(metadata, version).contains_key(key) <==> metadata.contains_key(key) && !(
        metadata[key].last_read_version == version || metadata[key].last_write_version == version),
        without_version(metadata, version).contains_key(key) ==> without_version(
            metadata,
            version,
        )[key] == metadata[key],
{
}

/// What goes to the base for a version is what the version changed: each slot with its value
/// once and under its account, each account with its state once, nothing else, and the slots
/// ahead of the accounts.
pub proof fn law_commits_hold_what_changed(commits: Seq<AccountCommit>, snapshot: SnapshotView)
    requires
        commits_of(commits, snapshot),
    ensures
        forall|i: int, k: int|
            0 <= i < commits.len() && 0 <= k < commits[i].storage@.len() ==> {
                let entry = #[trigger] commits[i].storage@[k];
                snapshot.storage.contains_key((commits[i].address, entry.0))
                    && snapshot.storage[(commits[i].address, entry.0)] == entry.1
            },
        forall|key: StorageKey| #[trigger]
            snapshot.storage.contains_key(key) ==> exists|i: int, k: int|
                0 <= i < commits.len() && commits[i].address == key.0 && 0 <= k
                    < commits[i].storage@.len() && #[trigger] commits[i].storage@[k] == (
                    key.1,
                    snapshot.storage[key],
                ),
        forall|i: int, k: int, j: int, l: int|
            0 <= i < commits.len() && 0 <= k < commits[i].storage@.len() && 0 <= j < commits.len()
                && 0 <= l < commits[j].storage@.len() && commits[i].address == commits[j].address
                && (#[trigger] commits[i].storage@[k]).0 == (#[trigger] commits[j].storage@[l]).0
                ==> i == j && k == l,
        forall|i: int|
            0 <= i < commits.len() ==> ((#[trigger] commits[i]).info matches Some(info)
                ==> snapshot.accounts.contains_key(commits[i].address)
                && snapshot.accounts[commits[i].address] == info),
        forall|account: Address| #[trigger]
            snapshot.accounts.contains_key(account) ==> exists|i: int|
                0 <= i < commits.len() && (#[trigger] commits[i]).address == account
                    && commits[i].info == Some(snapshot.accounts[account]),
        forall|i: int, j: int|
            0 <= i < j < commits.len() && (#[trigger] commits[i]).info is Some
                && commits[i].address == commits[j].address ==> (#[trigger] commits[j]).info is None,
        forall|i: int, j: int|
            0 <= i < j < commits.len() && (#[trigger] commits[i]).info is Some ==> (
            #[trigger] commits[j]).info is Some && commits[j].storage@.len() == 0,
        forall|i: int|
            0 <= i < commits.len() ==> (#[trigger] commits[i]).info is Some
                || commits[i].storage@.len() > 0,
{
    let n = choose|n: int|
        0 <= n <= commits.len()
            && #[trigger] crate::db::versioned::storage_commits_of(
            commits.take(n),
            snapshot.storage,
        ) && crate::db::versioned::info_commits_of(commits.skip(n), snapshot.accounts);
    let slots = commits.take(n);
    let infos = commits.skip(n);
    assert forall|i: int| 0 <= i < commits.len() implies if i < n {
        #[trigger] commits[i] == slots[i]
    } else {
        commits[i] == infos[i - n]
    } by {}
    assert forall|i: int| 0 <= i < infos.len() implies #[trigger] infos[i] == commits[i + n] by {}
    assert forall|i: int| 0 <= i < slots.len() implies #[trigger] slots[i] == commits[i] by {}
    assert forall|i: int|
        0 <= i < commits.len() && (#[trigger] commits[i]).storage@.len() > 0 implies i < n by {
        if i >= n {
            assert(infos[i - n].storage@.len() == 0);
        }
    }
    assert forall|key: StorageKey| #[trigger] snapshot.storage.contains_key(key) implies exists|
        i: int,
        k: int,
    |
        0 <= i < commits.len() && commits[i].address == key.0 && 0 <= k < commits[i].storage@.len()
            && #[trigger] commits[i].storage@[k] == (key.1, snapshot.storage[key]) by {
        let i = choose|i: int| 0 <= i < slots.len() && (#[trigger] slots[i]).address == key.0;
        assert(snapshot.storage.contains_key((slots[i].address, key.1)));
        let k = choose|k: int|
            0 <= k < slots[i].storage@.len() && (#[trigger] slots[i].storage@[k]).0 == key.1;
        assert(commits[i].storage@[k] == (key.1, snapshot.storage[key]));
    }
    assert forall|account: Address| #[trigger] snapshot.accounts.contains_key(account) implies exists|
        i: int,
    |
        0 <= i < commits.len() && (#[trigger] commits[i]).address == account && commits[i].info
            == Some(snapshot.accounts[account]) by {
        let i = choose|i: int| 0 <= i < infos.len() && (#[trigger] infos[i]).address == account;
        assert(commits[i + n].address == account);
    }
}

/// A slot without a note was never accessed; one with a note as often as it says.
pub proof fn law_how_often_a_slot_was_accessed(
    metadata: Map<StorageKey, OperationMetadata>,
    key: StorageKey,
)
    ensures
        metadata.contains_key(key) ==> accesses(metadata, key) == metadata[key].access_count,
        !metadata.contains_key(key) ==> accesses(metadata, key) == 0,
{
}

} // verus!
