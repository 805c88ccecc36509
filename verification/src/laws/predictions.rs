//! What the predictor learns from an operation, and what it predicts.
use crate::laws::logs::{acts_on, reads_slot, writes_slot};
use crate::parallel::operation_logs::Operation;
use crate::parallel::predictor::{pattern_of, repeated, still_fresh, PatternView, PredictorView};
use crate::primitives::{Address, StorageKey, U256};
use vstd::prelude::*;

verus! {

/// Whether one more use can be added to the pattern of a key.
pub open spec fn can_be_used<K>(patterns: Map<K, PatternView>, key: K, gas_used: u64) -> bool {
    patterns.contains_key(key) ==> patterns[key].frequency < u32::MAX && patterns[key].avg_gas_cost
        + gas_used <= u64::MAX
}

/// Whether the pattern of a key took in one use and those of the other keys stayed: it is one
/// more use, and one more write if it writes; it is the last use; and its gas enters the
/// average with the weight of all that came before.
pub open spec fn took_in_one_use<K>(
    before: Map<K, PatternView>,
    after: Map<K, PatternView>,
    key: K,
    gas_used: u64,
    now: u64,
    write: bool,
) -> bool {
    &&& after.contains_key(key)
    &&& after[key].last_accessed == now
    &&& before.contains_key(key) ==> {
        &&& after[key].frequency == before[key].frequency + 1
        &&& after[key].avg_gas_cost == (before[key].avg_gas_cost + gas_used) / 2
        &&& after[key].write_count == before[key].write_count + (if write {
            1int
        } else {
            0
        })
        &&& after[key].dependencies == before[key].dependencies
    }
    &&& !before.contains_key(key) ==> {
        &&& after[key].frequency == 1
        &&& after[key].avg_gas_cost == gas_used / 2
        &&& after[key].write_count == (if write {
            1int
        } else {
            0
        })
        &&& forall|account: Address| !after[key].dependencies.contains(account)
    }
    &&& forall|other: K|
        other != key ==> (#[trigger] after.contains_key(other) <==> before.contains_key(other))
    &&& forall|other: K|
        other != key && before.contains_key(other) ==> #[trigger] after[other] == before[other]
}

/// An operation on a slot is a use of the slot's pattern, a write if it writes; an access to an
/// account or to its code is a use of the account's. No other pattern changes, and its account
/// follows what came last.
pub proof fn law_what_an_operation_teaches(
    v: PredictorView,
    op: Operation,
    gas_used: u64,
    now: u64,
    account: Address,
    at: U256,
)
    requires
        acts_on(op, account),
        reads_slot(op, account, at) || writes_slot(op, account, at) ==> can_be_used(
            v.storage,
            (account, at),
            gas_used,
        ),
        writes_slot(op, account, at) && v.storage.contains_key((account, at)) ==> v.storage[(
            account,
            at,
        )].write_count < u32::MAX,
        op is AccountAccess || op is CodeAccess ==> can_be_used(v.contracts, account, gas_used),
    ensures
        reads_slot(op, account, at) ==> took_in_one_use(
            v.storage,
            v.learned(op, gas_used, now).storage,
            (account, at),
            gas_used,
            now,
            false,
        ),
        writes_slot(op, account, at) ==> took_in_one_use(
            v.storage,
            v.learned(op, gas_used, now).storage,
            (account, at),
            gas_used,
            now,
            true,
        ),
        op is AccountAccess || op is CodeAccess ==> took_in_one_use(
            v.contracts,
            v.learned(op, gas_used, now).contracts,
            account,
            gas_used,
            now,
            false,
        ),
        op is AccountAccess || op is CodeAccess ==> v.learned(op, gas_used, now).storage
            == v.storage,
        op is Read || op is Write ==> v.learned(op, gas_used, now).contracts == v.contracts,
        v.learned(op, gas_used, now).recent == v.followed_by(seq![account]).recent,
        v.learned(op, gas_used, now).sequences == v.followed_by(seq![account]).sequences,
        v.learned(op, gas_used, now).timeout == v.timeout,
        v.learned(op, gas_used, now).max_history == v.max_history,
{
}

/// What follows a transaction is remembered as the most recent, led by its first account, and
/// counted once more as following what was the most recent before; only so many are
/// remembered, and the oldest go first.
pub proof fn law_what_follows_is_remembered(v: PredictorView, addresses: Seq<Address>, i: int)
    requires
        v.recent.len() > 0 && v.sequences.contains_key(v.recent.last().1 + addresses)
            ==> v.sequences[v.recent.last().1 + addresses] < u32::MAX,
    ensures
        ({
            let after = v.followed_by(addresses);
            &&& after.storage == v.storage && after.contracts == v.contracts
            &&& after.timeout == v.timeout && after.max_history == v.max_history
            &&& v.recent.len() < v.max_history ==> after.recent.len() == v.recent.len() + 1
            &&& v.recent.len() >= v.max_history ==> after.recent.len() == v.max_history
            &&& after.recent.len() > 0 ==> after.recent.last() == (
                if addresses.len() > 0 {
                    addresses[0]
                } else {
                    Address { hi: 0, lo: 0 }
                },
                addresses,
            )
            &&& 0 < i < after.recent.len() ==> after.recent[after.recent.len() - 1 - i]
                == v.recent[v.recent.len() - i]
            &&& v.recent.len() == 0 ==> after.sequences == v.sequences
            &&& v.recent.len() > 0 ==> {
                let s = v.recent.last().1 + addresses;
                &&& after.sequences.contains_key(s)
                &&& after.sequences[s] == if v.sequences.contains_key(s) {
                    v.sequences[s] + 1
                } else {
                    1
                }
                &&& forall|other: Seq<Address>|
                    other != s ==> (#[trigger] after.sequences.contains_key(other)
                        <==> v.sequences.contains_key(other))
                &&& forall|other: Seq<Address>|
                    other != s && v.sequences.contains_key(other)
                        ==> #[trigger] after.sequences[other] == v.sequences[other]
            }
        }),
{
}

/// Whether an operation on an account can be learned from: no count and no sum would overflow.
pub open spec fn can_be_learned(
    v: PredictorView,
    op: Operation,
    account: Address,
    gas_used: u64,
) -> bool {
    &&& op matches Operation::Read { slot, .. } ==> can_be_used(
        v.storage,
        (account, slot),
        gas_used,
    )
    &&& op matches Operation::Write { slot, .. } ==> can_be_used(
        v.storage,
        (account, slot),
        gas_used,
    )
    &&& op is AccountAccess || op is CodeAccess ==> can_be_used(v.contracts, account, gas_used)
    &&& v.recent.len() > 0 && v.sequences.contains_key(v.recent.last().1 + seq![account])
        ==> v.sequences[v.recent.last().1 + seq![account]] < u32::MAX
}

/// Operations are learned from in turn, each on top of what those before it taught; one whose
/// numbers would overflow teaches nothing, and there is no other reason to leave one out.
pub proof fn law_operations_are_learned_in_turn(
    v: PredictorView,
    operations: Seq<Operation>,
    op: Operation,
    account: Address,
    gas_used: u64,
    now: u64,
)
    requires
        acts_on(op, account),
    ensures
        v.learned_all(Seq::empty(), gas_used, now) == v,
        ({
            let before = v.learned_all(operations, gas_used, now);
            v.learned_all(operations.push(op), gas_used, now) == if can_be_learned(
                before,
                op,
                account,
                gas_used,
            ) {
                before.learned(op, gas_used, now)
            } else {
                before
            }
        }),
        v.has_room_for(op, gas_used) <==> can_be_learned(v, op, account, gas_used),
{
    assert(operations.push(op).drop_last() =~= operations);
}

/// Predicted are the accounts that stand behind what was most recent in a sequence that begins
/// with it, and those that a given account is known to depend on.
pub proof fn law_what_is_predicted(v: PredictorView, addresses: Set<Address>, a: Address)
    ensures
        v.predicted(addresses).contains(a) <==> (exists|s: Seq<Address>, i: int|
            v.sequences.contains_key(s) && v.recent.len() > 0 && v.recent.last().1.len() <= i
                < s.len() && #[trigger] s[i] == a && s.take(v.recent.last().1.len() as int)
                == v.recent.last().1) || (exists|c: Address| #[trigger]
            addresses.contains(c) && v.contracts.contains_key(c)
                && v.contracts[c].dependencies.contains(a)),
{
    let l = v.recent.last().1;
    if v.continues_with(a) {
        let s = choose|s: Seq<Address>| #[trigger]
            v.sequences.contains_key(s) && v.recent.len() > 0 && l.is_prefix_of(s) && s.skip(
                l.len() as int,
            ).contains(a);
        let k = s.skip(l.len() as int).index_of(a);
        assert(s[l.len() + k] == a);
        assert(s.take(l.len() as int) =~= l);
    }
    if exists|s: Seq<Address>, i: int|
        v.sequences.contains_key(s) && v.recent.len() > 0 && l.len() <= i < s.len()
            && #[trigger] s[i] == a && s.take(l.len() as int) == l {
        let (s, i) = choose|s: Seq<Address>, i: int|
            v.sequences.contains_key(s) && v.recent.len() > 0 && l.len() <= i < s.len()
                && #[trigger] s[i] == a && s.take(l.len() as int) == l;
        assert(l.is_prefix_of(s)) by {
            assert(l =~= s.subrange(0, l.len() as int));
        }
        assert(s.skip(l.len() as int)[i - l.len()] == a);
        assert(v.sequences.contains_key(s));
    }
}

/// A pattern is kept exactly if its last use is less than the timeout ago, and a sequence
/// exactly if it was seen more than once; what is kept does not change.
pub proof fn law_what_is_kept<K>(
    patterns: Map<K, PatternView>,
    now: u64,
    timeout: u64,
    key: K,
    sequences: Map<Seq<Address>, u32>,
    s: Seq<Address>,
)
    ensures
        still_fresh(patterns, now, timeout).contains_key(key) <==> patterns.contains_key(key)
            && timeout > 0 && now - patterns[key].last_accessed < timeout,
        still_fresh(patterns, now, timeout).contains_key(key) ==> still_fresh(
            patterns,
            now,
            timeout,
        )[key] == patterns[key],
        repeated(sequences).contains_key(s) <==> sequences.contains_key(s) && sequences[s] >= 2,
        repeated(sequences).contains_key(s) ==> repeated(sequences)[s] == sequences[s],
{
}

/// What is known of a slot or an account is its pattern, or that it was never used.
pub proof fn law_what_is_known_before_any_use<K>(patterns: Map<K, PatternView>, key: K)
    ensures
        patterns.contains_key(key) ==> pattern_of(patterns, key) == patterns[key],
        !patterns.contains_key(key) ==> {
            let p = pattern_of(patterns, key);
            &&& p.frequency == 0 && p.write_count == 0
            &&& p.avg_gas_cost == 0 && p.last_accessed == 0
            &&& forall|account: Address| !p.dependencies.contains(account)
        },
{
}

} // verus!
