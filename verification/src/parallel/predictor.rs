//! Learns from past operations which accounts are used together, and predicts
//! from that what a transaction will depend on.
//!
//! Times are nanoseconds on a clock of the caller's.
use crate::collections::{KeyMap, KeySet};
use crate::parallel::operation_logs::{address_of, touches_account, touches_slot, Operation};
use crate::primitives::{Address, StorageKey, U256};
use std::collections::VecDeque;
use vstd::prelude::*;

verus! {

/// How a slot or an account has been used.
#[derive(Debug)]
pub struct AccessPattern {
    frequency: u32,
    last_accessed: u64,
    avg_gas_cost: u64,
    write_count: u32,
    typical_dependencies: KeySet<Address>,
}

/// A pattern with its dependencies as a set.
#[verifier::ext_equal]
pub struct PatternView {
    pub frequency: u32,
    pub last_accessed: u64,
    pub avg_gas_cost: u64,
    pub write_count: u32,
    pub dependencies: Set<Address>,
}

impl View for AccessPattern {
    type V = PatternView;

    closed spec fn view(&self) -> PatternView {
        PatternView {
            frequency: self.frequency,
            last_accessed: self.last_accessed,
            avg_gas_cost: self.avg_gas_cost,
            write_count: self.write_count,
            dependencies: self.typical_dependencies@,
        }
    }
}

impl AccessPattern {
    pub closed spec fn wf(self) -> bool {
        &&& self.typical_dependencies.wf()
        &&& self.write_count <= self.frequency
    }

    /// The pattern of something that was never used.
    fn unused() -> (r: Self)
        ensures
            r.wf(),
            r@ == no_pattern(),
    {
        let r = AccessPattern {
            frequency: 0,
            last_accessed: 0,
            avg_gas_cost: 0,
            write_count: 0,
            typical_dependencies: KeySet::new(),
        };
        assert(r@ =~= no_pattern());
        r
    }

    /// Notes one more use.
    fn touch(&mut self, gas_used: u64, now: u64, is_write: bool)
        requires
            old(self).wf(),
            old(self)@.frequency < u32::MAX,
            old(self)@.avg_gas_cost + gas_used <= u64::MAX,
        ensures
            final(self).wf(),
            final(self)@ == touched(old(self)@, gas_used, now, is_write),
    {
        self.frequency = self.frequency + 1;
        self.last_accessed = now;
        self.avg_gas_cost = (self.avg_gas_cost + gas_used) / 2;
        if is_write {
            self.write_count = self.write_count + 1;
        }
        assert(self@ =~= touched(old(self)@, gas_used, now, is_write));
    }
}

/// The pattern of something that was never used.
pub open spec fn no_pattern() -> PatternView {
    PatternView {
        frequency: 0,
        last_accessed: 0,
        avg_gas_cost: 0,
        write_count: 0,
        dependencies: Set::empty(),
    }
}

/// A pattern after one more use. The average is that of the past average and the
/// new cost.
pub open spec fn touched(p: PatternView, gas_used: u64, now: u64, is_write: bool) -> PatternView {
    PatternView {
        frequency: (p.frequency + 1) as u32,
        last_accessed: now,
        avg_gas_cost: ((p.avg_gas_cost + gas_used) / 2) as u64,
        write_count: if is_write {
            (p.write_count + 1) as u32
        } else {
            p.write_count
        },
        dependencies: p.dependencies,
    }
}

/// What is known of the use of a key.
pub open spec fn pattern_of<K>(patterns: Map<K, PatternView>, key: K) -> PatternView {
    if patterns.contains_key(key) {
        patterns[key]
    } else {
        no_pattern()
    }
}

/// Whether a pattern has room for one more use.
pub open spec fn has_room(p: PatternView, gas_used: u64) -> bool {
    p.frequency < u32::MAX && p.avg_gas_cost + gas_used <= u64::MAX
}

/// How often each sequence of accounts was seen.
#[derive(Debug)]
pub struct SequenceCounts {
    sequences: Vec<Vec<Address>>,
    counts: Vec<u32>,
}

impl SequenceCounts {
    pub closed spec fn wf(self) -> bool {
        &&& self.sequences@.len() == self.counts@.len()
        &&& forall|i: int, j: int|
            0 <= i < j < self.sequences@.len() ==> (#[trigger] self.sequences@[i])@ != (
            #[trigger] self.sequences@[j])@
    }

    closed spec fn holds(self, s: Seq<Address>) -> bool {
        exists|i: int| 0 <= i < self.sequences@.len() && (#[trigger] self.sequences@[i])@ == s
    }

    closed spec fn place(self, s: Seq<Address>) -> int {
        choose|i: int| 0 <= i < self.sequences@.len() && (#[trigger] self.sequences@[i])@ == s
    }

    /// These repeated sequences, with their counts, stand at `from` or behind it.
    closed spec fn has_kept(self, sequences: Seq<Vec<Address>>, counts: Seq<u32>, from: int) -> bool {
        forall|i: int|
            0 <= i < sequences.len() ==> self@.contains_key((#[trigger] sequences[i])@)
                && self@[sequences[i]@] == counts[i] && counts[i] > 1 && self.place(sequences[i]@) >= from
    }

    fn new() -> (r: Self)
        ensures
            r.wf(),
            r@ == Map::<Seq<Address>, u32>::empty(),
    {
        let r = SequenceCounts { sequences: Vec::new(), counts: Vec::new() };
        assert(r@ =~= Map::<Seq<Address>, u32>::empty());
        r
    }

    proof fn lemma_at(self, i: int)
        requires
            self.wf(),
            0 <= i < self.sequences@.len(),
        ensures
            self@.contains_key(self.sequences@[i]@),
            self@[self.sequences@[i]@] == self.counts@[i],
            self.place(self.sequences@[i]@) == i,
    {
        let s = self.sequences@[i]@;
        assert(self.holds(s));
        let j = self.place(s);
        assert(self.sequences@[j]@ == s);
        if i < j {
            assert(self.sequences@[i]@ != self.sequences@[j]@);
        } else if j < i {
            assert(self.sequences@[j]@ != self.sequences@[i]@);
        }
    }

    /// Counts a sequence once more.
    fn increment(&mut self, sequence: Vec<Address>)
        requires
            old(self).wf(),
            count_of(old(self)@, sequence@) < u32::MAX,
        ensures
            final(self).wf(),
            final(self)@ == old(self)@.insert(
                sequence@,
                (count_of(old(self)@, sequence@) + 1) as u32,
            ),
    {
        let n = self.sequences.len();
        for i in 0..n
            invariant
                *self == *old(self),
                self.wf(),
                n == self.sequences@.len(),
                count_of(old(self)@, sequence@) < u32::MAX,
                forall|j: int| 0 <= j < i ==> (#[trigger] self.sequences@[j])@ != sequence@,
        {
            if same_sequence(&self.sequences[i], &sequence) {
                proof {
                    self.lemma_at(i as int);
                }
                let count: u32 = self.counts[i];
                self.counts[i] = count + 1;
                proof {
                    let want = old(self)@.insert(
                        sequence@,
                        (count_of(old(self)@, sequence@) + 1) as u32,
                    );
                    assert forall|s: Seq<Address>| #[trigger]
                        self@.contains_key(s) implies self@[s] == want[s] by {
                        let j = self.place(s);
                        assert(self.sequences@[j]@ == s);
                        self.lemma_at(j);
                        old(self).lemma_at(j);
                    }
                    assert forall|s: Seq<Address>|
                        self@.contains_key(s) == want.contains_key(s) by {
                        assert(self.holds(s) == old(self).holds(s));
                    }
                    assert(self@ =~= want);
                }
                return ;
            }
        }
        let ghost s0 = sequence@;
        assert(!self.holds(s0));
        self.sequences.push(sequence);
        self.counts.push(1);
        proof {
            let want = old(self)@.insert(s0, 1u32);
            assert(forall|j: int|
                0 <= j < n ==> #[trigger] self.sequences@[j] == old(self).sequences@[j]);
            assert(self.sequences@[n as int]@ == s0);
            assert forall|s: Seq<Address>| self@.contains_key(s) == want.contains_key(s) by {
                if old(self).holds(s) {
                    let j = old(self).place(s);
                    assert(self.sequences@[j]@ == s);
                    assert(self.holds(s));
                }
                if self.holds(s) {
                    let j = self.place(s);
                    assert(self.sequences@[j]@ == s);
                    if j < n {
                        assert(old(self).sequences@[j]@ == s);
                    }
                }
            }
            assert(self.wf());
            assert forall|s: Seq<Address>| #[trigger]
                self@.contains_key(s) implies self@[s] == want[s] by {
                let j = self.place(s);
                assert(self.sequences@[j]@ == s);
                self.lemma_at(j);
                if j < n {
                    old(self).lemma_at(j);
                }
            }
            assert(self@ =~= want);
        }
    }

    /// Keeps the sequences that were seen more than once.
    fn keep_repeated(&mut self)
        requires
            old(self).wf(),
        ensures
            final(self).wf(),
            final(self)@ == repeated(old(self)@),
    {
        let mut sequences: Vec<Vec<Address>> = Vec::new();
        let mut counts: Vec<u32> = Vec::new();
        let ghost all = *self;
        let ghost mut done: int = all.sequences@.len() as int;
        assert(all.sequences@.take(done) =~= all.sequences@);
        assert(all.counts@.take(done) =~= all.counts@);
        while self.sequences.len() > 0
            invariant
                all == *old(self),
                all.wf(),
                0 <= done <= all.sequences@.len(),
                self.sequences@ == all.sequences@.take(done),
                self.counts@ == all.counts@.take(done),
                sequences@.len() == counts@.len(),
                all.has_kept(sequences@, counts@, done),
                forall|i: int, j: int|
                    0 <= i < j < sequences@.len() ==> (#[trigger] sequences@[i])@ != (
                    #[trigger] sequences@[j])@,
                forall|k: int|
                    done <= k < all.sequences@.len() && all.counts@[k] > 1 ==> exists|i: int|
                        0 <= i < sequences@.len() && (#[trigger] sequences@[i])@ == (
                        #[trigger] all.sequences@[k])@,
            decreases done,
        {
            let ghost was = sequences@;
            let ghost was_counts = counts@;
            let ghost at = done - 1;
            proof {
                all.lemma_at(at);
            }
            match (self.sequences.pop(), self.counts.pop()) {
                (Some(sequence), Some(count)) => {
                    assert(sequence == all.sequences@[at]);
                    assert(count == all.counts@[at]);
                    if count > 1 {
                        sequences.push(sequence);
                        counts.push(count);
                        assert(sequences@[was.len() as int]@ == all.sequences@[at]@);
                    }
                    proof {
                        assert(self.sequences@ =~= all.sequences@.take(at));
                        assert(self.counts@ =~= all.counts@.take(at));
                        assert(all.has_kept(sequences@, counts@, at)) by {
                            assert forall|i: int| 0 <= i < sequences@.len() implies all@.contains_key(
                                (#[trigger] sequences@[i])@,
                            ) && all@[sequences@[i]@] == counts@[i] && counts@[i] > 1 && all.place(
                                sequences@[i]@,
                            ) >= at by {
                                if i < was.len() {
                                    assert(sequences@[i] == was[i] && counts@[i] == was_counts[i]);
                                }
                            }
                        }
                        assert forall|k: int|
                            at <= k < all.sequences@.len() && all.counts@[k]
                                > 1 implies exists|i: int|
                            0 <= i < sequences@.len() && (#[trigger] sequences@[i])@ == (
                            #[trigger] all.sequences@[k])@ by {
                            if k > at {
                                let i = choose|i: int|
                                    0 <= i < was.len() && (#[trigger] was[i])@ == (
                                    all.sequences@[k])@;
                                assert(sequences@[i]@ == all.sequences@[k]@);
                            }
                        }
                        done = at;
                    }
                },
                _ => {
                    assert(false);
                },
            }
        }
        self.sequences = sequences;
        self.counts = counts;
        proof {
            let want = repeated(all@);
            assert forall|s: Seq<Address>| self@.contains_key(s) == want.contains_key(s) by {
                if self.holds(s) {
                    let j = self.place(s);
                    assert(self.sequences@[j]@ == s);
                }
                if want.contains_key(s) {
                    let k = all.place(s);
                    assert(all.sequences@[k]@ == s);
                    all.lemma_at(k);
                    let i = choose|i: int|
                        0 <= i < sequences@.len() && (#[trigger] sequences@[i])@ == (
                        all.sequences@[k])@;
                    assert(self.sequences@[i]@ == s);
                    assert(self.holds(s));
                }
            }
            assert forall|s: Seq<Address>| #[trigger]
                self@.contains_key(s) implies self@[s] == want[s] by {
                let j = self.place(s);
                assert(self.sequences@[j]@ == s);
                self.lemma_at(j);
            }
            assert(self@ =~= want);
        }
    }
}

impl View for SequenceCounts {
    type V = Map<Seq<Address>, u32>;

    closed spec fn view(&self) -> Map<Seq<Address>, u32> {
        Map::new(|s: Seq<Address>| self.holds(s), |s: Seq<Address>| self.counts@[self.place(s)])
    }
}

/// How often a sequence was seen.
pub open spec fn count_of(sequences: Map<Seq<Address>, u32>, s: Seq<Address>) -> int {
    if sequences.contains_key(s) {
        sequences[s] as int
    } else {
        0
    }
}

/// The sequences that were seen more than once.
pub open spec fn repeated(sequences: Map<Seq<Address>, u32>) -> Map<Seq<Address>, u32> {
    Map::new(
        |s: Seq<Address>| sequences.contains_key(s) && sequences[s] > 1,
        |s: Seq<Address>| sequences[s],
    )
}

fn same_sequence(a: &Vec<Address>, b: &Vec<Address>) -> (r: bool)
    ensures
        r == (a@ == b@),
{
    if a.len() != b.len() {
        return false;
    }
    for i in 0..a.len()
        invariant
            a@.len() == b@.len(),
            forall|j: int| 0 <= j < i ==> a@[j] == b@[j],
    {
        if a[i] != b[i] {
            return false;
        }
    }
    assert(a@ =~= b@);
    true
}

/// Whether a sequence begins with another.
fn starts_with(a: &Vec<Address>, prefix: &Vec<Address>) -> (r: bool)
    ensures
        r == prefix@.is_prefix_of(a@),
{
    if a.len() < prefix.len() {
        return false;
    }
    for i in 0..prefix.len()
        invariant
            prefix@.len() <= a@.len(),
            forall|j: int| 0 <= j < i ==> a@[j] == prefix@[j],
    {
        if a[i] != prefix[i] {
            assert(a@.subrange(0, prefix@.len() as int)[i as int] == a@[i as int]);
            return false;
        }
    }
    assert(prefix@ =~= a@.subrange(0, prefix@.len() as int));
    true
}

/// What was learned so far.
#[derive(Debug)]
pub struct DependencyPredictor {
    storage_patterns: KeyMap<StorageKey, AccessPattern>,
    contract_patterns: KeyMap<Address, AccessPattern>,
    sequence_patterns: SequenceCounts,
    recent_transactions: VecDeque<(Address, Vec<Address>)>,
    pattern_timeout: u64,
    max_history: usize,
}

/// What was learned so far, as maps and sequences.
#[verifier::ext_equal]
pub struct PredictorView {
    pub storage: Map<StorageKey, PatternView>,
    pub contracts: Map<Address, PatternView>,
    pub sequences: Map<Seq<Address>, u32>,
    pub recent: Seq<(Address, Seq<Address>)>,
    pub timeout: u64,
    pub max_history: usize,
}

/// The recent accesses with their accounts as sequences.
pub open spec fn recent_views(recent: Seq<(Address, Vec<Address>)>) -> Seq<
    (Address, Seq<Address>),
> {
    Seq::new(recent.len(), |i: int| (recent[i].0, recent[i].1@))
}

/// The patterns that were used less than `timeout` ago. What was used after `now`
/// counts as used now.
pub open spec fn still_fresh<K>(
    patterns: Map<K, PatternView>,
    now: u64,
    timeout: u64,
) -> Map<K, PatternView> {
    Map::new(
        |key: K| patterns.contains_key(key) && age(patterns[key].last_accessed, now) < timeout,
        |key: K| patterns[key],
    )
}

/// How long ago something happened.
pub open spec fn age(then: u64, now: u64) -> int {
    if now >= then {
        now - then
    } else {
        0
    }
}

/// The accounts in a list, of which the first stands for all.
pub open spec fn lead(addresses: Seq<Address>) -> Address {
    if addresses.len() > 0 {
        addresses[0]
    } else {
        Address { hi: 0, lo: 0 }
    }
}

impl PredictorView {
    /// The sequence that the accounts of one more access make with those of the
    /// last one.
    pub open spec fn sequence_with(self, addresses: Seq<Address>) -> Seq<Address> {
        self.recent.last().1 + addresses
    }

    /// One more access: the sequence with the last one is counted, and the oldest
    /// are dropped beyond `max_history`.
    pub open spec fn followed_by(self, addresses: Seq<Address>) -> PredictorView {
        let grown = self.recent.push((lead(addresses), addresses));
        PredictorView {
            sequences: if self.recent.len() > 0 {
                self.sequences.insert(
                    self.sequence_with(addresses),
                    (count_of(self.sequences, self.sequence_with(addresses)) + 1) as u32,
                )
            } else {
                self.sequences
            },
            recent: if grown.len() > self.max_history {
                grown.skip(grown.len() - self.max_history)
            } else {
                grown
            },
            ..self
        }
    }

    /// One more operation: the pattern of its slot or of its account is touched,
    /// and it follows the last one.
    pub open spec fn learned(self, op: Operation, gas_used: u64, now: u64) -> PredictorView {
        let patterned = match op {
            Operation::Read { address, slot } => PredictorView {
                storage: self.storage.insert(
                    (address, slot),
                    touched(pattern_of(self.storage, (address, slot)), gas_used, now, false),
                ),
                ..self
            },
            Operation::Write { address, slot, .. } => PredictorView {
                storage: self.storage.insert(
                    (address, slot),
                    touched(pattern_of(self.storage, (address, slot)), gas_used, now, true),
                ),
                ..self
            },
            Operation::AccountAccess { address } => PredictorView {
                contracts: self.contracts.insert(
                    address,
                    touched(pattern_of(self.contracts, address), gas_used, now, false),
                ),
                ..self
            },
            Operation::CodeAccess { address } => PredictorView {
                contracts: self.contracts.insert(
                    address,
                    touched(pattern_of(self.contracts, address), gas_used, now, false),
                ),
                ..self
            },
        };
        patterned.followed_by(seq![address_of(op)])
    }

    /// The predictor after it learned from operations one after the other, except
    /// those that it had no room for.
    pub open spec fn learned_all(
        self,
        operations: Seq<Operation>,
        gas_used: u64,
        now: u64,
    ) -> PredictorView
        decreases operations.len(),
    {
        if operations.len() == 0 {
            self
        } else {
            let before = self.learned_all(operations.drop_last(), gas_used, now);
            if before.has_room_for(operations.last(), gas_used) {
                before.learned(operations.last(), gas_used, now)
            } else {
                before
            }
        }
    }

    /// Whether the counters have room for one more operation.
    pub open spec fn has_room_for(self, op: Operation, gas_used: u64) -> bool {
        &&& match op {
            Operation::Read { address, slot } => has_room(
                pattern_of(self.storage, (address, slot)),
                gas_used,
            ),
            Operation::Write { address, slot, .. } => has_room(
                pattern_of(self.storage, (address, slot)),
                gas_used,
            ),
            Operation::AccountAccess { address } => has_room(
                pattern_of(self.contracts, address),
                gas_used,
            ),
            Operation::CodeAccess { address } => has_room(
                pattern_of(self.contracts, address),
                gas_used,
            ),
        }
        &&& self.recent.len() > 0 ==> count_of(
            self.sequences,
            self.sequence_with(seq![address_of(op)]),
        ) < u32::MAX
    }

    /// Whether some counted sequence goes on from the last access with an account.
    pub open spec fn continues_with(self, a: Address) -> bool {
        exists|s: Seq<Address>| #[trigger]
            self.sequences.contains_key(s) && self.recent.len() > 0
                && self.recent.last().1.is_prefix_of(s) && s.skip(
                self.recent.last().1.len() as int,
            ).contains(a)
    }

    /// Whether one of some accounts is known to depend on an account.
    pub open spec fn depended_on(self, addresses: Set<Address>, a: Address) -> bool {
        exists|c: Address| #[trigger]
            addresses.contains(c) && self.contracts.contains_key(c)
                && self.contracts[c].dependencies.contains(a)
    }

    /// The accounts that are likely to be used next to some others.
    pub open spec fn predicted(self, addresses: Set<Address>) -> Set<Address> {
        Set::new(|a: Address| self.continues_with(a) || self.depended_on(addresses, a))
    }
}

impl View for DependencyPredictor {
    type V = PredictorView;

    closed spec fn view(&self) -> PredictorView {
        PredictorView {
            storage: self.storage_patterns@.map_values(|p: AccessPattern| p@),
            contracts: self.contract_patterns@.map_values(|p: AccessPattern| p@),
            sequences: self.sequence_patterns@,
            recent: recent_views(self.recent_transactions@),
            timeout: self.pattern_timeout,
            max_history: self.max_history,
        }
    }
}

impl DependencyPredictor {
    /// The collections are in order, and no more accesses are remembered than the
    /// history may hold.
    pub closed spec fn wf(self) -> bool {
        &&& self.storage_patterns.wf()
        &&& self.contract_patterns.wf()
        &&& self.sequence_patterns.wf()
        &&& forall|key: StorageKey| #[trigger]
            self.storage_patterns@.contains_key(key) ==> self.storage_patterns@[key].wf()
        &&& forall|key: Address| #[trigger]
            self.contract_patterns@.contains_key(key) ==> self.contract_patterns@[key].wf()
        &&& self@.recent.len() <= self@.max_history
    }

    pub fn new(pattern_timeout: u64, max_history: usize) -> (r: Self)
        ensures
            r.wf(),
            r@ == (PredictorView {
                storage: Map::empty(),
                contracts: Map::empty(),
                sequences: Map::empty(),
                recent: Seq::empty(),
                timeout: pattern_timeout,
                max_history,
            }),
    {
        let r = DependencyPredictor {
            storage_patterns: KeyMap::new(),
            contract_patterns: KeyMap::new(),
            sequence_patterns: SequenceCounts::new(),
            recent_transactions: VecDeque::new(),
            pattern_timeout,
            max_history,
        };
        assert(r@ =~= PredictorView {
            storage: Map::empty(),
            contracts: Map::empty(),
            sequences: Map::empty(),
            recent: Seq::empty(),
            timeout: pattern_timeout,
            max_history,
        });
        r
    }

    /// Learns from one operation and the gas it took.
    pub fn analyze_operation_log(&mut self, log: &Operation, gas_used: u64, now: u64)
        requires
            old(self).wf(),
            old(self)@.has_room_for(*log, gas_used),
        ensures
            final(self).wf(),
            final(self)@ == old(self)@.learned(*log, gas_used, now),
    {
        match log {
            Operation::Read { address, slot } => {
                self.update_storage_pattern(*address, *slot, gas_used, now, false);
            },
            Operation::Write { address, slot, .. } => {
                self.update_storage_pattern(*address, *slot, gas_used, now, true);
            },
            Operation::AccountAccess { address } => {
                self.update_contract_pattern(*address, gas_used, now);
            },
            Operation::CodeAccess { address } => {
                self.update_contract_pattern(*address, gas_used, now);
            },
        }
        let mut accessed_addresses: KeySet<Address> = KeySet::new();
        accessed_addresses.insert(log.address());
        assert(accessed_addresses.order() =~= seq![address_of(*log)]);
        self.update_sequence_patterns(&accessed_addresses);
    }

    /// Learns from all operations of a log, in their order. An operation that the
    /// counters have no room for is passed over.
    pub fn learn_operations(&mut self, operations: &Vec<Operation>, gas_used: u64, now: u64)
        requires
            old(self).wf(),
        ensures
            final(self).wf(),
            final(self)@ == old(self)@.learned_all(operations@, gas_used, now),
    {
        let n: usize = operations.len();
        assert(operations@.take(0) =~= Seq::<Operation>::empty());
        for i in 0..n
            invariant
                self.wf(),
                n == operations@.len(),
                self@ == old(self)@.learned_all(operations@.take(i as int), gas_used, now),
        {
            assert(operations@.take(i + 1).drop_last() =~= operations@.take(i as int));
            assert(operations@.take(i + 1).last() == operations@[i as int]);
            if self.can_learn(&operations[i], gas_used) {
                self.analyze_operation_log(&operations[i], gas_used, now);
            }
        }
        assert(operations@.take(n as int) =~= operations@);
    }

    /// Whether the counters have room to learn from an operation.
    pub fn can_learn(&self, log: &Operation, gas_used: u64) -> (r: bool)
        requires
            self.wf(),
        ensures
            r == self@.has_room_for(*log, gas_used),
    {
        let pattern = match log {
            Operation::Read { address, slot } => self.storage_patterns.get(&(*address, *slot)),
            Operation::Write { address, slot, .. } => self.storage_patterns.get(
                &(*address, *slot),
            ),
            Operation::AccountAccess { address } => self.contract_patterns.get(address),
            Operation::CodeAccess { address } => self.contract_patterns.get(address),
        };
        if let Some(p) = pattern {
            if p.frequency == u32::MAX || p.avg_gas_cost > u64::MAX - gas_used {
                return false;
            }
        }
        let n = self.recent_transactions.len();
        if n == 0 {
            return true;
        }
        let mut sequence = self.recent_transactions[n - 1].1.clone();
        sequence.push(log.address());
        assert(self.recent_transactions@[n - 1].1@ =~= self@.recent.last().1);
        assert(sequence@ =~= self@.sequence_with(seq![address_of(*log)]));
        let total = self.sequence_patterns.sequences.len();
        for i in 0..total
            invariant
                self.wf(),
                self@.recent.len() > 0,
                sequence@ == self@.sequence_with(seq![address_of(*log)]),
                total == self.sequence_patterns.sequences@.len(),
                forall|j: int|
                    0 <= j < i ==> (#[trigger] self.sequence_patterns.sequences@[j])@ != sequence@
                        || self.sequence_patterns.counts@[j] < u32::MAX,
        {
            if self.sequence_patterns.counts[i] == u32::MAX && same_sequence(
                &self.sequence_patterns.sequences[i],
                &sequence,
            ) {
                proof {
                    self.sequence_patterns.lemma_at(i as int);
                }
                return false;
            }
        }
        proof {
            if self.sequence_patterns@.contains_key(sequence@) {
                let j = self.sequence_patterns.place(sequence@);
                assert(self.sequence_patterns.sequences@[j]@ == sequence@);
                self.sequence_patterns.lemma_at(j);
            }
        }
        true
    }

    fn update_storage_pattern(
        &mut self,
        address: Address,
        slot: U256,
        gas_used: u64,
        now: u64,
        is_write: bool,
    )
        requires
            old(self).wf(),
            has_room(pattern_of(old(self)@.storage, (address, slot)), gas_used),
        ensures
            final(self).wf(),
            final(self)@ == (PredictorView {
                storage: old(self)@.storage.insert(
                    (address, slot),
                    touched(
                        pattern_of(old(self)@.storage, (address, slot)),
                        gas_used,
                        now,
                        is_write,
                    ),
                ),
                ..old(self)@
            }),
    {
        let key = (address, slot);
        let mut pattern = match self.storage_patterns.remove(&key) {
            Some(pattern) => pattern,
            None => AccessPattern::unused(),
        };
        assert(pattern@ == pattern_of(old(self)@.storage, key));
        pattern.touch(gas_used, now, is_write);
        self.storage_patterns.insert(key, pattern);
        assert(self@ =~= PredictorView {
            storage: old(self)@.storage.insert(
                key,
                touched(pattern_of(old(self)@.storage, key), gas_used, now, is_write),
            ),
            ..old(self)@
        });
    }

    fn update_contract_pattern(&mut self, address: Address, gas_used: u64, now: u64)
        requires
            old(self).wf(),
            has_room(pattern_of(old(self)@.contracts, address), gas_used),
        ensures
            final(self).wf(),
            final(self)@ == (PredictorView {
                contracts: old(self)@.contracts.insert(
                    address,
                    touched(pattern_of(old(self)@.contracts, address), gas_used, now, false),
                ),
                ..old(self)@
            }),
    {
        let mut pattern = match self.contract_patterns.remove(&address) {
            Some(pattern) => pattern,
            None => AccessPattern::unused(),
        };
        assert(pattern@ == pattern_of(old(self)@.contracts, address));
        pattern.touch(gas_used, now, false);
        self.contract_patterns.insert(address, pattern);
        assert(self@ =~= PredictorView {
            contracts: old(self)@.contracts.insert(
                address,
                touched(pattern_of(old(self)@.contracts, address), gas_used, now, false),
            ),
            ..old(self)@
        });
    }

    /// Counts the sequence that some accounts make with those of the last access,
    /// and remembers them as the last access.
    fn update_sequence_patterns(&mut self, addresses: &KeySet<Address>)
        requires
            old(self).wf(),
            old(self)@.recent.len() > 0 ==> count_of(
                old(self)@.sequences,
                old(self)@.sequence_with(addresses.order()),
            ) < u32::MAX,
        ensures
            final(self).wf(),
            final(self)@ == old(self)@.followed_by(addresses.order()),
    {
        let listed = list(addresses);
        let n = self.recent_transactions.len();
        if n > 0 {
            let mut sequence = self.recent_transactions[n - 1].1.clone();
            let mut tail = list(addresses);
            assert(sequence@ =~= self@.recent.last().1);
            sequence.append(&mut tail);
            assert(sequence@ =~= self@.sequence_with(addresses.order()));
            self.sequence_patterns.increment(sequence);
        }
        let first = if listed.len() > 0 {
            listed[0]
        } else {
            Address::zero()
        };
        let ghost before = self@.recent;
        self.recent_transactions.push_back((first, listed));
        let ghost grown = before.push((lead(addresses.order()), addresses.order()));
        assert(self@.recent =~= grown);
        if self.recent_transactions.len() > self.max_history {
            let _ = self.recent_transactions.pop_front();
            assert(self@.recent =~= grown.skip(1));
        }
        assert(self@ =~= old(self)@.followed_by(addresses.order()));
    }

    /// The accounts that are likely to be used next to some others: those with which
    /// a counted sequence goes on from the last access, and those that one of the
    /// accounts is known to depend on.
    pub fn predict_dependencies(&self, addresses: &KeySet<Address>) -> (r: KeySet<Address>)
        requires
            self.wf(),
        ensures
            r.wf(),
            r@ == self@.predicted(addresses@),
    {
        let mut predicted: KeySet<Address> = KeySet::new();
        let n = self.recent_transactions.len();
        if n > 0 {
            self.add_continuations(&mut predicted);
        } else {
            assert forall|a: Address| !self@.continues_with(a) by {}
        }
        let ghost continued = predicted@;
        let m = addresses.len();
        for i in 0..m
            invariant
                self.wf(),
                m == addresses.order().len(),
                predicted.wf(),
                forall|a: Address| #[trigger]
                    predicted@.contains(a) ==> continued.contains(a) || self@.depended_on(
                        addresses@,
                        a,
                    ),
                forall|a: Address| continued.contains(a) ==> #[trigger] predicted@.contains(a),
                forall|j: int, a: Address|
                    0 <= j < i && self@.contracts.contains_key(#[trigger] addresses.order()[j])
                        && #[trigger] self@.contracts[addresses.order()[j]].dependencies.contains(
                        a,
                    ) ==> predicted@.contains(a),
        {
            let address = addresses.at(i);
            let ghost before = predicted@;
            if let Some(pattern) = self.contract_patterns.get(&address) {
                assert(self@.contracts.contains_key(address));
                assert(self@.contracts[address] == pattern@);
                predicted.extend(&pattern.typical_dependencies);
                assert(predicted@ == before.union(self@.contracts[address].dependencies));
            } else {
                assert(!self@.contracts.contains_key(address));
            }
        }
        proof {
            assert forall|a: Address|
                predicted@.contains(a) == self@.predicted(addresses@).contains(a) by {
                if self@.depended_on(addresses@, a) {
                    let c = choose|c: Address| #[trigger]
                        addresses@.contains(c) && self@.contracts.contains_key(c)
                            && self@.contracts[c].dependencies.contains(a);
                    let j = addresses.order().index_of(c);
                    assert(addresses.order()[j] == c);
                    assert(self@.contracts[addresses.order()[j]].dependencies.contains(a));
                }
            }
            assert(predicted@ =~= self@.predicted(addresses@));
        }
        predicted
    }

    /// Adds the accounts with which a counted sequence goes on from the last access.
    fn add_continuations(&self, predicted: &mut KeySet<Address>)
        requires
            self.wf(),
            old(predicted).wf(),
            self@.recent.len() > 0,
        ensures
            final(predicted).wf(),
            forall|a: Address|
                final(predicted)@.contains(a) <==> old(predicted)@.contains(a)
                    || self@.continues_with(a),
    {
        let n = self.recent_transactions.len();
        let last = &self.recent_transactions[n - 1].1;
        let ghost prefix = self@.recent.last().1;
        assert(last@ == prefix);
        let total = self.sequence_patterns.sequences.len();
        for i in 0..total
            invariant
                self.wf(),
                self@.recent.len() > 0,
                prefix == self@.recent.last().1,
                last@ == prefix,
                total == self.sequence_patterns.sequences@.len(),
                predicted.wf(),
                forall|a: Address| #[trigger]
                    predicted@.contains(a) ==> old(predicted)@.contains(a) || self@.continues_with(
                        a,
                    ),
                forall|a: Address| old(predicted)@.contains(a) ==> #[trigger] predicted@.contains(a),
                forall|j: int, a: Address|
                    0 <= j < i && prefix.is_prefix_of(
                        (#[trigger] self.sequence_patterns.sequences@[j])@,
                    ) && self.sequence_patterns.sequences@[j]@.skip(prefix.len() as int).contains(a)
                        ==> #[trigger] predicted@.contains(a),
        {
            let sequence = &self.sequence_patterns.sequences[i];
            let ghost s = sequence@;
            proof {
                self.sequence_patterns.lemma_at(i as int);
            }
            if starts_with(sequence, last) {
                let ghost tail = s.skip(prefix.len() as int);
                let ghost before = predicted@;
                for k in last.len()..sequence.len()
                    invariant
                        self.wf(),
                        self@.recent.len() > 0,
                        prefix == self@.recent.last().1,
                        last@ == prefix,
                        s == sequence@,
                        prefix.len() <= s.len(),
                        tail == s.skip(prefix.len() as int),
                        self@.sequences.contains_key(s),
                        prefix.is_prefix_of(s),
                        predicted.wf(),
                        forall|a: Address| #[trigger]
                            predicted@.contains(a) ==> old(predicted)@.contains(a)
                                || self@.continues_with(a),
                        forall|a: Address| before.contains(a) ==> #[trigger] predicted@.contains(a),
                        forall|j: int|
                            prefix.len() <= j < k ==> predicted@.contains(#[trigger] s[j]),
                {
                    let a = sequence[k];
                    assert(tail[k - prefix.len()] == a);
                    assert(self@.continues_with(a));
                    predicted.insert(a);
                }
                assert forall|a: Address| tail.contains(a) implies predicted@.contains(a) by {
                    let j = tail.index_of(a);
                    assert(s[j + prefix.len()] == a);
                }
            }
        }
        proof {
            assert forall|a: Address| self@.continues_with(a) implies predicted@.contains(a) by {
                let s = choose|s: Seq<Address>| #[trigger]
                    self@.sequences.contains_key(s) && self@.recent.len() > 0
                        && self@.recent.last().1.is_prefix_of(s) && s.skip(
                        self@.recent.last().1.len() as int,
                    ).contains(a);
                let j = self.sequence_patterns.place(s);
                assert(self.sequence_patterns.holds(s));
                assert(self.sequence_patterns.sequences@[j]@ == s);
            }
        }
    }

    /// How many writes to a slot were seen. Each brings the probability of a
    /// conflict about the slot a tenth of the way nearer to one.
    pub fn observed_writes(&self, address: Address, slot: U256) -> (r: u32)
        requires
            self.wf(),
        ensures
            r == pattern_of(self@.storage, (address, slot)).write_count,
    {
        match self.storage_patterns.get(&(address, slot)) {
            Some(pattern) => pattern.write_count,
            None => 0,
        }
    }

    /// Drops the patterns that were not used for the timeout or longer, and the
    /// sequences that were seen only once.
    pub fn cleanup_old_patterns(&mut self, now: u64)
        requires
            old(self).wf(),
        ensures
            final(self).wf(),
            final(self)@ == (PredictorView {
                storage: still_fresh(old(self)@.storage, now, old(self)@.timeout),
                contracts: still_fresh(old(self)@.contracts, now, old(self)@.timeout),
                sequences: repeated(old(self)@.sequences),
                ..old(self)@
            }),
    {
        let timeout = self.pattern_timeout;
        keep_fresh(&mut self.storage_patterns, now, timeout);
        keep_fresh(&mut self.contract_patterns, now, timeout);
        self.sequence_patterns.keep_repeated();
        assert(self@ =~= PredictorView {
            storage: still_fresh(old(self)@.storage, now, old(self)@.timeout),
            contracts: still_fresh(old(self)@.contracts, now, old(self)@.timeout),
            sequences: repeated(old(self)@.sequences),
            ..old(self)@
        });
    }
}

/// The keys of a set in their order.
fn list(addresses: &KeySet<Address>) -> (r: Vec<Address>)
    ensures
        r@ == addresses.order(),
{
    let mut r: Vec<Address> = Vec::new();
    let n = addresses.len();
    for i in 0..n
        invariant
            n == addresses.order().len(),
            r@ =~= addresses.order().take(i as int),
    {
        r.push(addresses.at(i));
    }
    assert(r@ =~= addresses.order());
    r
}

/// Drops the patterns that were not used for longer than the timeout.
fn keep_fresh<K: crate::collections::Key>(
    patterns: &mut KeyMap<K, AccessPattern>,
    now: u64,
    timeout: u64,
)
    requires
        old(patterns).wf(),
        forall|key: K| #[trigger] old(patterns)@.contains_key(key) ==> old(patterns)@[key].wf(),
    ensures
        final(patterns).wf(),
        forall|key: K| #[trigger] final(patterns)@.contains_key(key) ==> final(patterns)@[key].wf(),
        final(patterns)@.map_values(|p: AccessPattern| p@) == still_fresh(
            old(patterns)@.map_values(|p: AccessPattern| p@),
            now,
            timeout,
        ),
{
    let mut kept: KeyMap<K, AccessPattern> = KeyMap::new();
    let ghost all = patterns@;
    loop
        invariant
            patterns.wf(),
            kept.wf(),
            all == old(patterns)@,
            forall|key: K| #[trigger] all.contains_key(key) ==> all[key].wf(),
            forall|key: K| #[trigger]
                patterns@.contains_key(key) ==> all.contains_key(key) && patterns@[key] == all[key],
            forall|key: K| #[trigger]
                kept@.contains_key(key) ==> all.contains_key(key) && kept@[key] == all[key] && age(
                    all[key]@.last_accessed,
                    now,
                ) < timeout,
            forall|key: K| #[trigger]
                all.contains_key(key) && age(all[key]@.last_accessed, now) < timeout
                    ==> kept@.contains_key(key) || patterns@.contains_key(key),
        ensures
            patterns@ == Map::<K, AccessPattern>::empty(),
        decreases patterns.order().len(),
    {
        match patterns.pop() {
            Some((key, pattern)) => {
                let elapsed: u64 = if now >= pattern.last_accessed {
                    now - pattern.last_accessed
                } else {
                    0
                };
                if elapsed < timeout {
                    kept.insert(key, pattern);
                }
            },
            None => {
                break ;
            },
        }
    }
    *patterns = kept;
    assert(patterns@.map_values(|p: AccessPattern| p@) =~= still_fresh(
        all.map_values(|p: AccessPattern| p@),
        now,
        timeout,
    ));
}

/// An account that once came right after what was accessed last is predicted,
/// whatever accounts are asked about.
pub proof fn law_what_followed_before_is_predicted(
    v: PredictorView,
    addresses: Set<Address>,
    next: Address,
)
    requires
        v.recent.len() > 0,
        v.sequences.contains_key(v.sequence_with(seq![next])),
    ensures
        v.predicted(addresses).contains(next),
{
    let s = v.sequence_with(seq![next]);
    let prefix = v.recent.last().1;
    assert(prefix =~= s.subrange(0, prefix.len() as int));
    assert(s.skip(prefix.len() as int)[0] == next);
    assert(v.continues_with(next));
}

/// After an operation on one account and then one on another, the second account is
/// predicted once the first is used again.
pub proof fn law_a_repeated_first_predicts_the_second(
    v: PredictorView,
    first: Operation,
    second: Operation,
    again: Operation,
    gas_used: u64,
    now: u64,
    addresses: Set<Address>,
)
    requires
        v.max_history > 0,
        address_of(again) == address_of(first),
    ensures
        v.learned(first, gas_used, now).learned(second, gas_used, now).learned(
            again,
            gas_used,
            now,
        ).predicted(addresses).contains(address_of(second)),
{
    let a = v.learned(first, gas_used, now);
    let b = a.learned(second, gas_used, now);
    let c = b.learned(again, gas_used, now);
    law_history_is_bounded(v, first, gas_used, now);
    law_history_is_bounded(a, second, gas_used, now);
    law_history_is_bounded(b, again, gas_used, now);
    let pair = seq![address_of(first)] + seq![address_of(second)];
    assert(b.sequences.contains_key(pair));
    assert(c.sequences.contains_key(pair));
    assert(c.sequence_with(seq![address_of(second)]) == pair);
    law_what_followed_before_is_predicted(c, addresses, address_of(second));
}

/// However many operations are learned from, no more of them are remembered than
/// the history may hold, and the last one always is if it may hold any.
pub proof fn law_history_is_bounded(v: PredictorView, op: Operation, gas_used: u64, now: u64)
    ensures
        v.learned(op, gas_used, now).recent.len() <= v.max_history,
        v.max_history > 0 ==> v.learned(op, gas_used, now).recent.last() == (
            address_of(op),
            seq![address_of(op)],
        ),
{
}

/// No more accesses are remembered than the history may hold, and no slot or account
/// was written more often than it was used.
pub proof fn law_wf_is_bounded(predictor: DependencyPredictor)
    requires
        predictor.wf(),
    ensures
        predictor@.recent.len() <= predictor@.max_history,
        forall|key: StorageKey| #[trigger]
            predictor@.storage.contains_key(key) ==> predictor@.storage[key].write_count
                <= predictor@.storage[key].frequency,
        forall|key: Address| #[trigger]
            predictor@.contracts.contains_key(key) ==> predictor@.contracts[key].write_count
                <= predictor@.contracts[key].frequency,
{
}

/// One more operation on an account: the history is what it was with the account at its
/// end, cut to its last `max_history` entries; the sequence that the account makes with
/// the last access is counted once more, and no other sequence; and of all patterns only
/// that of the slot or the account that the operation names changes.
pub proof fn law_one_operation_is_learned_locally(
    v: PredictorView,
    op: Operation,
    gas_used: u64,
    now: u64,
)
    ensures
        ({
            let after = v.learned(op, gas_used, now);
            let grown = v.recent.push((address_of(op), seq![address_of(op)]));
            let kept: int = if grown.len() < v.max_history {
                grown.len() as int
            } else {
                v.max_history as int
            };
            let sequence = v.sequence_with(seq![address_of(op)]);
            &&& after.recent == grown.skip(grown.len() - kept)
            &&& after.recent.len() == kept
            &&& v.recent.len() == 0 ==> after.sequences == v.sequences
            &&& v.recent.len() > 0 && count_of(v.sequences, sequence) < u32::MAX ==> count_of(
                after.sequences,
                sequence,
            ) == count_of(v.sequences, sequence) + 1
            &&& forall|s: Seq<Address>|
                s != sequence ==> #[trigger] count_of(after.sequences, s) == count_of(
                    v.sequences,
                    s,
                )
            &&& forall|key: StorageKey|
                !touches_slot(op, key) ==> #[trigger] pattern_of(after.storage, key) == pattern_of(
                    v.storage,
                    key,
                )
            &&& forall|account: Address|
                !touches_account(op, account) ==> #[trigger] pattern_of(after.contracts, account)
                    == pattern_of(v.contracts, account)
            &&& forall|key: StorageKey|
                touches_slot(op, key) ==> #[trigger] pattern_of(after.storage, key) == touched(
                    pattern_of(v.storage, key),
                    gas_used,
                    now,
                    op is Write,
                )
            &&& forall|account: Address|
                touches_account(op, account) ==> #[trigger] pattern_of(after.contracts, account)
                    == touched(pattern_of(v.contracts, account), gas_used, now, false)
            &&& after.timeout == v.timeout
            &&& after.max_history == v.max_history
        }),
{
    let after = v.learned(op, gas_used, now);
    let grown = v.recent.push((address_of(op), seq![address_of(op)]));
    assert(seq![address_of(op)][0] == address_of(op));
    if grown.len() <= v.max_history {
        assert(grown.skip(0) =~= grown);
    }
}

} // verus!
