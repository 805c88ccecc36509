//! Transactions that wait to run, by priority.
//!
//! A priority is a number that orders the transactions as their scores do; how a
//! score is computed is up to the caller. Times are nanoseconds on a clock of the
//! caller's.
use crate::collections::KeySet;
use crate::primitives::U256;
use std::collections::{HashMap, HashSet};
use vstd::prelude::*;

verus! {

/// What is known of a transaction that waits.
#[derive(Debug)]
pub struct TransactionSchedulingInfo {
    pub tx_index: usize,
    pub gas_price: U256,
    pub estimated_gas: u64,
    pub dependencies: KeySet<usize>,
    pub priority: u64,
    pub waiting_since: u64,
}

/// A waiting transaction with its dependencies as a set.
#[verifier::ext_equal]
pub struct WaitingView {
    pub tx_index: usize,
    pub gas_price: U256,
    pub estimated_gas: u64,
    pub dependencies: Set<usize>,
    pub priority: u64,
    pub waiting_since: u64,
}

impl View for TransactionSchedulingInfo {
    type V = WaitingView;

    open spec fn view(&self) -> WaitingView {
        WaitingView {
            tx_index: self.tx_index,
            gas_price: self.gas_price,
            estimated_gas: self.estimated_gas,
            dependencies: self.dependencies@,
            priority: self.priority,
            waiting_since: self.waiting_since,
        }
    }
}

/// Hands out transactions in batches, those of the highest priority first, and none
/// before what it depends on.
#[derive(Debug)]
pub struct TransactionScheduler {
    pending_transactions: Vec<TransactionSchedulingInfo>,
    scheduled_transactions: HashSet<usize>,
    tx_dependencies: HashMap<usize, KeySet<usize>>,
}

/// The scheduler as a sequence of those that wait, in the order in which they came,
/// the set of those handed out, and who was linked to whom.
#[verifier::ext_equal]
pub struct SchedulerView {
    pub pending: Seq<WaitingView>,
    pub scheduled: Set<usize>,
    pub links: Map<usize, Set<usize>>,
}

/// The links after a transaction came with its dependencies: it is linked to them,
/// and each of them that came before is linked to it.
pub open spec fn linked(
    links: Map<usize, Set<usize>>,
    tx_index: usize,
    dependencies: Set<usize>,
) -> Map<usize, Set<usize>> {
    let with_own = links.insert(tx_index, dependencies);
    Map::new(
        |tx: usize| with_own.contains_key(tx),
        |tx: usize|
            if dependencies.contains(tx) {
                with_own[tx].insert(tx_index)
            } else {
                with_own[tx]
            },
    )
}

impl SchedulerView {
    /// The scheduler after a transaction came.
    pub open spec fn added(self, waiting: WaitingView) -> SchedulerView {
        SchedulerView {
            pending: self.pending.push(waiting),
            links: linked(self.links, waiting.tx_index, waiting.dependencies),
            ..self
        }
    }

    /// The scheduler after those that wait got new priorities.
    pub open spec fn reprioritized(self, priorities: Seq<u64>) -> SchedulerView {
        SchedulerView {
            pending: Seq::new(
                priorities.len(),
                |i: int| WaitingView { priority: priorities[i], ..self.pending[i] },
            ),
            ..self
        }
    }

    /// Whether all that a waiting transaction depends on was handed out.
    pub open spec fn executable(self, i: int) -> bool {
        self.pending[i].dependencies.subset_of(self.scheduled)
    }

    /// Whether a transaction waits.
    pub open spec fn waits(self, tx: usize) -> bool {
        exists|i: int| 0 <= i < self.pending.len() && (#[trigger] self.pending[i]).tx_index == tx
    }

    /// Whether no transaction waits twice.
    pub open spec fn distinct(self) -> bool {
        forall|i: int, j: int|
            0 <= i < j < self.pending.len() ==> (#[trigger] self.pending[i]).tx_index != (
            #[trigger] self.pending[j]).tx_index
    }

    /// Whether a waiting transaction is the next one: of those that can run, the one
    /// of the highest priority, and of several such the one that came first.
    pub open spec fn is_next(self, i: int) -> bool {
        &&& 0 <= i < self.pending.len()
        &&& self.executable(i)
        &&& forall|j: int|
            0 <= j < self.pending.len() && #[trigger] self.executable(j) ==> (
            self.pending[j].priority < self.pending[i].priority || (self.pending[j].priority
                == self.pending[i].priority && i <= j))
    }

    /// Whether any waiting transaction can run.
    pub open spec fn has_next(self) -> bool {
        exists|i: int| #[trigger] self.is_next(i)
    }

    pub open spec fn next(self) -> int {
        choose|i: int| #[trigger] self.is_next(i)
    }

    /// The scheduler after a waiting transaction was handed out.
    pub open spec fn taken(self, i: int) -> SchedulerView {
        SchedulerView {
            pending: self.pending.remove(i),
            scheduled: self.scheduled.insert(self.pending[i].tx_index),
            ..self
        }
    }

    /// Up to `count` transactions handed out one after the other, and the scheduler
    /// after that.
    pub open spec fn run(self, count: nat) -> (Seq<usize>, SchedulerView)
        decreases count,
    {
        if count == 0 {
            (Seq::empty(), self)
        } else {
            let (batch, after) = self.run((count - 1) as nat);
            if after.has_next() {
                (batch.push(after.pending[after.next()].tx_index), after.taken(after.next()))
            } else {
                (batch, after)
            }
        }
    }
}

/// Only one of those that wait is the next.
pub proof fn law_only_one_is_next(s: SchedulerView, i: int)
    requires
        s.is_next(i),
    ensures
        s.has_next(),
        s.next() == i,
{
    let n = s.next();
    assert(s.is_next(n));
    assert(s.executable(i));
    assert(s.executable(n));
}

/// Once nothing can run any more, larger batches are no larger.
proof fn lemma_run_stops(s: SchedulerView, short: nat, long: nat)
    requires
        short <= long,
        !s.run(short).1.has_next(),
    ensures
        s.run(long) == s.run(short),
    decreases long,
{
    if short < long {
        lemma_run_stops(s, short, (long - 1) as nat);
    }
}

impl View for TransactionScheduler {
    type V = SchedulerView;

    closed spec fn view(&self) -> SchedulerView {
        SchedulerView {
            pending: self.pending_transactions@.map_values(
                |info: TransactionSchedulingInfo| info@,
            ),
            scheduled: self.scheduled_transactions@,
            links: self.tx_dependencies@.map_values(|s: KeySet<usize>| s@),
        }
    }
}

impl TransactionScheduler {
    pub closed spec fn wf(self) -> bool {
        &&& forall|i: int|
            0 <= i < self.pending_transactions@.len() ==> (
            #[trigger] self.pending_transactions@[i]).dependencies.wf()
        &&& forall|tx: usize| #[trigger]
            self.tx_dependencies@.contains_key(tx) ==> self.tx_dependencies@[tx].wf()
    }

    pub fn new() -> (r: Self)
        ensures
            r.wf(),
            r@ == (SchedulerView {
                pending: Seq::empty(),
                scheduled: Set::empty(),
                links: Map::empty(),
            }),
    {
        let r = TransactionScheduler {
            pending_transactions: Vec::new(),
            scheduled_transactions: HashSet::new(),
            tx_dependencies: HashMap::new(),
        };
        assert(r@ =~= SchedulerView {
            pending: Seq::empty(),
            scheduled: Set::empty(),
            links: Map::empty(),
        });
        r
    }

    /// How many transactions wait.
    pub fn pending_len(&self) -> (r: usize)
        ensures
            r == self@.pending.len(),
    {
        self.pending_transactions.len()
    }

    /// A transaction that waits.
    pub fn pending(&self, i: usize) -> (r: &TransactionSchedulingInfo)
        requires
            i < self@.pending.len(),
        ensures
            r@ == self@.pending[i as int],
    {
        &self.pending_transactions[i]
    }

    /// Takes a transaction in, with what it depends on and its priority.
    pub fn add_transaction(
        &mut self,
        tx_index: usize,
        gas_price: U256,
        estimated_gas: u64,
        dependencies: &KeySet<usize>,
        priority: u64,
        now: u64,
    )
        requires
            old(self).wf(),
            dependencies.wf(),
        ensures
            final(self).wf(),
            final(self)@ == old(self)@.added(
                WaitingView {
                    tx_index,
                    gas_price,
                    estimated_gas,
                    dependencies: dependencies@,
                    priority,
                    waiting_since: now,
                },
            ),
    {
        let info = TransactionSchedulingInfo {
            tx_index,
            gas_price,
            estimated_gas,
            dependencies: dependencies.clone(),
            priority,
            waiting_since: now,
        };
        let ghost waiting = info@;
        self.pending_transactions.push(info);
        assert(self@.pending =~= old(self)@.pending.push(waiting));
        self.update_dependencies(tx_index, dependencies);
    }

    /// Links a transaction to what it depends on, and back.
    fn update_dependencies(&mut self, tx_index: usize, dependencies: &KeySet<usize>)
        requires
            old(self).wf(),
            dependencies.wf(),
        ensures
            final(self).wf(),
            final(self)@ == (SchedulerView {
                links: linked(old(self)@.links, tx_index, dependencies@),
                ..old(self)@
            }),
    {
        self.tx_dependencies.insert(tx_index, dependencies.clone());
        let ghost with_own = old(self)@.links.insert(tx_index, dependencies@);
        assert(self@.links =~= with_own);
        let n = dependencies.len();
        for i in 0..n
            invariant
                self.wf(),
                dependencies.wf(),
                n == dependencies.order().len(),
                self.pending_transactions == old(self).pending_transactions,
                self.scheduled_transactions == old(self).scheduled_transactions,
                self@.links.dom() == with_own.dom(),
                forall|tx: usize| #[trigger]
                    with_own.contains_key(tx) ==> self@.links[tx] == if dependencies.order().take(
                        i as int,
                    ).contains(tx) {
                        with_own[tx].insert(tx_index)
                    } else {
                        with_own[tx]
                    },
        {
            let dep = dependencies.at(i);
            let ghost before = *self;
            let ghost done = dependencies.order().take(i as int);
            let ghost more = dependencies.order().take(i + 1);
            proof {
                assert(more =~= done.push(dep));
                assert forall|tx: usize| more.contains(tx) == (done.contains(tx) || tx == dep) by {
                    if done.contains(tx) {
                        assert(more[done.index_of(tx)] == tx);
                    }
                    if tx == dep {
                        assert(more[i as int] == tx);
                    }
                    if more.contains(tx) && more.index_of(tx) < i {
                        assert(done[more.index_of(tx)] == tx);
                    }
                }
                assert(!done.contains(dep)) by {
                    if done.contains(dep) {
                        assert(dependencies.order()[done.index_of(dep)] == dep);
                    }
                }
            }
            if let Some(mut deps) = self.tx_dependencies.remove(&dep) {
                deps.insert(tx_index);
                self.tx_dependencies.insert(dep, deps);
                assert(before@.links.contains_key(dep));
                assert(self@.links =~= before@.links.insert(
                    dep,
                    before@.links[dep].insert(tx_index),
                ));
                assert(self@.links.dom() =~= with_own.dom());
            } else {
                assert(!before@.links.contains_key(dep));
                assert(self@.links =~= before@.links);
            }
        }
        proof {
            assert(dependencies.order().take(n as int) =~= dependencies.order());
            assert forall|tx: usize| dependencies.order().contains(tx) == dependencies@.contains(
                tx,
            ) by {}
            assert(self@.links =~= linked(old(self)@.links, tx_index, dependencies@));
            assert(self@ =~= SchedulerView {
                links: linked(old(self)@.links, tx_index, dependencies@),
                ..old(self)@
            });
        }
    }

    /// Hands out up to so many transactions that can run, one after the other.
    pub fn get_next_batch(&mut self, max_batch_size: usize) -> (r: Vec<usize>)
        requires
            old(self).wf(),
        ensures
            final(self).wf(),
            (r@, final(self)@) == old(self)@.run(max_batch_size as nat),
    {
        let mut batch: Vec<usize> = Vec::new();
        for i in 0..max_batch_size
            invariant
                self.wf(),
                (batch@, self@) == old(self)@.run(i as nat),
        {
            let ghost before = self@;
            if let Some(tx) = self.get_next_executable_transaction() {
                batch.push(tx.tx_index);
                self.scheduled_transactions.insert(tx.tx_index);
                assert(self@ =~= before.taken(before.next()));
            } else {
                proof {
                    lemma_run_stops(old(self)@, i as nat, max_batch_size as nat);
                }
                return batch;
            }
        }
        batch
    }

    /// Takes the next transaction that can run out of those that wait.
    fn get_next_executable_transaction(&mut self) -> (r: Option<TransactionSchedulingInfo>)
        requires
            old(self).wf(),
        ensures
            final(self).wf(),
            match r {
                Some(info) => old(self)@.has_next() && info@
                    == old(self)@.pending[old(self)@.next()] && final(self)@ == (SchedulerView {
                    pending: old(self)@.pending.remove(old(self)@.next()),
                    ..old(self)@
                }),
                None => !old(self)@.has_next() && final(self)@ == old(self)@,
            },
    {
        let n: usize = self.pending_transactions.len();
        let mut best: Option<usize> = None;
        for i in 0..n
            invariant
                *self == *old(self),
                self.wf(),
                n == self.pending_transactions@.len(),
                match best {
                    Some(b) => b < i && self@.executable(b as int) && forall|j: int|
                        0 <= j < i && #[trigger] self@.executable(j) ==> (self@.pending[j].priority
                            < self@.pending[b as int].priority || (self@.pending[j].priority
                            == self@.pending[b as int].priority && b <= j)),
                    None => forall|j: int| 0 <= j < i ==> !#[trigger] self@.executable(j),
                },
        {
            if self.is_executable(i) {
                match best {
                    Some(b) => {
                        if self.pending_transactions[i].priority
                            > self.pending_transactions[b].priority {
                            best = Some(i);
                        }
                    },
                    None => {
                        best = Some(i);
                    },
                }
            }
        }
        match best {
            Some(b) => {
                assert(self@.is_next(b as int));
                proof {
                    law_only_one_is_next(self@, b as int);
                }
                let info = self.pending_transactions.remove(b);
                assert(self@.pending =~= old(self)@.pending.remove(b as int));
                assert(self@ =~= SchedulerView {
                    pending: old(self)@.pending.remove(b as int),
                    ..old(self)@
                });
                Some(info)
            },
            None => {
                assert forall|i: int| !#[trigger] self@.is_next(i) by {
                    if 0 <= i < n {
                        assert(!self@.executable(i));
                    }
                }
                None
            },
        }
    }

    /// Whether all that a waiting transaction depends on was handed out.
    pub fn is_executable(&self, i: usize) -> (r: bool)
        requires
            self.wf(),
            i < self@.pending.len(),
        ensures
            r == self@.executable(i as int),
    {
        let info = &self.pending_transactions[i];
        assert(info@ == self@.pending[i as int]);
        let n = info.dependencies.len();
        for k in 0..n
            invariant
                self.wf(),
                i < self@.pending.len(),
                info@ == self@.pending[i as int],
                info.dependencies.wf(),
                n == info.dependencies.order().len(),
                forall|j: int|
                    0 <= j < k ==> self@.scheduled.contains(#[trigger] info.dependencies.order()[j]),
        {
            let dep = info.dependencies.at(k);
            if !self.scheduled_transactions.contains(&dep) {
                assert(info.dependencies@.contains(dep));
                return false;
            }
        }
        proof {
            assert forall|dep: usize| info.dependencies@.contains(dep) implies self@.scheduled.contains(
                dep,
            ) by {
                let j = info.dependencies.order().index_of(dep);
                assert(info.dependencies.order()[j] == dep);
            }
        }
        true
    }

    /// Gives those that wait new priorities, in the order in which they came.
    pub fn update_priorities(&mut self, priorities: &Vec<u64>)
        requires
            old(self).wf(),
            priorities@.len() == old(self)@.pending.len(),
        ensures
            final(self).wf(),
            final(self)@ == old(self)@.reprioritized(priorities@),
    {
        let n: usize = self.pending_transactions.len();
        for i in 0..n
            invariant
                self.wf(),
                n == old(self)@.pending.len(),
                n == self.pending_transactions@.len(),
                n == priorities@.len(),
                self.scheduled_transactions == old(self).scheduled_transactions,
                self.tx_dependencies == old(self).tx_dependencies,
                forall|j: int|
                    0 <= j < n ==> (#[trigger] self@.pending[j]) == if j < i {
                        WaitingView { priority: priorities@[j], ..old(self)@.pending[j] }
                    } else {
                        old(self)@.pending[j]
                    },
        {
            let ghost before = self@.pending;
            self.pending_transactions[i].priority = priorities[i];
            assert(self@.pending =~= before.update(
                i as int,
                WaitingView { priority: priorities@[i as int], ..before[i as int] },
            ));
        }
        assert(self@ =~= old(self)@.reprioritized(priorities@));
    }
}

/// Where some waiting transaction can run, one of them is the next.
proof fn lemma_some_is_next(s: SchedulerView, count: int) -> (r: int)
    requires
        0 < count <= s.pending.len(),
        exists|i: int| 0 <= i < count && #[trigger] s.executable(i),
    ensures
        0 <= r < count,
        s.executable(r),
        forall|j: int|
            0 <= j < count && #[trigger] s.executable(j) ==> (s.pending[j].priority
                < s.pending[r].priority || (s.pending[j].priority == s.pending[r].priority && r
                <= j)),
    decreases count,
{
    let last = count - 1;
    if exists|i: int| 0 <= i < last && #[trigger] s.executable(i) {
        let best = lemma_some_is_next(s, last);
        if s.executable(last) && s.pending[last].priority > s.pending[best].priority {
            last
        } else {
            best
        }
    } else {
        assert(s.executable(last));
        last
    }
}

/// A batch holds no more transactions than it may. If it holds fewer, nothing that
/// still waits can run.
pub proof fn law_batch_is_full_or_nothing_can_run(s: SchedulerView, count: nat)
    ensures
        s.run(count).0.len() <= count,
        s.run(count).0.len() < count ==> forall|i: int|
            0 <= i < s.run(count).1.pending.len() ==> !#[trigger] s.run(count).1.executable(i),
    decreases count,
{
    if count > 0 {
        law_batch_is_full_or_nothing_can_run(s, (count - 1) as nat);
        let after = s.run((count - 1) as nat).1;
        if !after.has_next() {
            assert forall|i: int| 0 <= i < after.pending.len() implies !#[trigger] after.executable(
                i,
            ) by {
                if after.executable(i) {
                    let next = lemma_some_is_next(after, after.pending.len() as int);
                    assert(after.is_next(next));
                }
            }
        } else {
            assert(s.run((count - 1) as nat).0.len() == count - 1) by {
                if s.run((count - 1) as nat).0.len() < count - 1 {
                    let i = after.next();
                    assert(after.is_next(i));
                    assert(after.executable(i));
                }
            }
        }
    }
}

/// What is handed out counts as scheduled from then on, and nothing else does.
pub proof fn law_a_batch_is_scheduled(s: SchedulerView, count: nat)
    ensures
        s.run(count).1.scheduled == s.scheduled.union(s.run(count).0.to_set()),
    decreases count,
{
    if count == 0 {
        assert(s.run(0).0.to_set() =~= Set::<usize>::empty());
        assert(s.scheduled.union(Set::<usize>::empty()) =~= s.scheduled);
    } else {
        law_a_batch_is_scheduled(s, (count - 1) as nat);
        let (batch, after) = s.run((count - 1) as nat);
        if after.has_next() {
            let tx = after.pending[after.next()].tx_index;
            batch.lemma_push_to_set_commute(tx);
            assert(s.scheduled.union(batch.to_set()).insert(tx) =~= s.scheduled.union(
                batch.to_set().insert(tx),
            ));
        }
    }
}

/// What still waits after a batch waited before it.
proof fn lemma_pending_waited(s: SchedulerView, count: nat, i: int)
    requires
        0 <= i < s.run(count).1.pending.len(),
    ensures
        s.pending.contains(s.run(count).1.pending[i]),
    decreases count,
{
    if count > 0 {
        let after = s.run((count - 1) as nat).1;
        if after.has_next() {
            let next = after.next();
            assert(after.is_next(next));
            if i < next {
                lemma_pending_waited(s, (count - 1) as nat, i);
            } else {
                lemma_pending_waited(s, (count - 1) as nat, i + 1);
            }
        } else {
            lemma_pending_waited(s, (count - 1) as nat, i);
        }
    }
}

/// No transaction is handed out before all that it depends on: each dependency was
/// scheduled before the batch or stands before it in the batch.
pub proof fn law_dependencies_are_scheduled_first(
    s: SchedulerView,
    count: nat,
    k: int,
)
    requires
        0 <= k < s.run(count).0.len(),
    ensures
        exists|w: WaitingView| #[trigger]
            s.pending.contains(w) && w.tx_index == s.run(count).0[k] && w.dependencies.subset_of(
                s.scheduled.union(s.run(count).0.take(k).to_set()),
            ),
    decreases count,
{
    let (batch, after) = s.run((count - 1) as nat);
    let whole = s.run(count).0;
    if k < batch.len() {
        law_dependencies_are_scheduled_first(s, (count - 1) as nat, k);
        assert(whole.take(k) =~= batch.take(k));
    } else {
        let next = after.next();
        assert(after.is_next(next));
        lemma_pending_waited(s, (count - 1) as nat, next);
        law_a_batch_is_scheduled(s, (count - 1) as nat);
        assert(whole.take(k) =~= batch);
        let w = after.pending[next];
        assert(s.pending.contains(w));
    }
}

/// Where nothing that waits depends on anything, a batch holds as many transactions
/// as it may, or all of them.
pub proof fn law_independent_transactions_fill_a_batch(s: SchedulerView, count: nat)
    requires
        forall|i: int|
            0 <= i < s.pending.len() ==> (#[trigger] s.pending[i]).dependencies == Set::<
                usize,
            >::empty(),
    ensures
        s.run(count).0.len() == if count < s.pending.len() {
            count
        } else {
            s.pending.len()
        },
        s.run(count).1.pending.len() == s.pending.len() - s.run(count).0.len(),
        forall|i: int|
            0 <= i < s.run(count).1.pending.len() ==> (
            #[trigger] s.run(count).1.pending[i]).dependencies == Set::<usize>::empty(),
    decreases count,
{
    if count > 0 {
        law_independent_transactions_fill_a_batch(s, (count - 1) as nat);
        let after = s.run((count - 1) as nat).1;
        if after.pending.len() > 0 {
            assert(after.executable(0));
            let next = lemma_some_is_next(after, after.pending.len() as int);
            assert(after.is_next(next));
            law_only_one_is_next(after, next);
        } else {
            assert forall|i: int| !#[trigger] after.is_next(i) by {}
        }
    }
}

/// Where some waiting transaction can run, and a batch may hold any, it holds one.
pub proof fn law_a_batch_is_not_empty_where_something_can_run(s: SchedulerView, count: nat)
    requires
        count > 0,
        exists|i: int| 0 <= i < s.pending.len() && #[trigger] s.executable(i),
    ensures
        s.run(count).0.len() > 0,
    decreases count,
{
    if count > 1 {
        law_a_batch_is_not_empty_where_something_can_run(s, (count - 1) as nat);
    } else {
        let next = lemma_some_is_next(s, s.pending.len() as int);
        assert(s.is_next(next));
        assert(s.run(0) == (Seq::<usize>::empty(), s));
        assert(s.has_next());
    }
}

/// Where no transaction waits twice, a batch takes out exactly what it hands out, each
/// once, and all others go on waiting.
pub proof fn law_a_batch_leaves_the_others_waiting(s: SchedulerView, count: nat)
    requires
        s.distinct(),
    ensures
        s.run(count).1.distinct(),
        s.run(count).0.no_duplicates(),
        s.run(count).1.pending.len() + s.run(count).0.len() == s.pending.len(),
        forall|tx: usize| #[trigger]
            s.waits(tx) <==> s.run(count).1.waits(tx) || s.run(count).0.contains(tx),
        forall|tx: usize| #[trigger]
            s.run(count).0.contains(tx) ==> !s.run(count).1.waits(tx),
    decreases count,
{
    if count > 0 {
        law_a_batch_leaves_the_others_waiting(s, (count - 1) as nat);
        let (batch, after) = s.run((count - 1) as nat);
        if after.has_next() {
            let next = after.next();
            assert(after.is_next(next));
            let tx = after.pending[next].tx_index;
            let more = batch.push(tx);
            let left = after.taken(next);
            lemma_taken(after, next);
            assert(after.waits(tx));
            assert(s.run(count) == (more, left));
            assert forall|t: usize| #[trigger] more.contains(t) == (batch.contains(t) || t == tx) by {
                if batch.contains(t) {
                    assert(more[batch.index_of(t)] == t);
                }
                if t == tx {
                    assert(more[batch.len() as int] == t);
                }
                if more.contains(t) && more.index_of(t) < batch.len() {
                    assert(batch[more.index_of(t)] == t);
                }
            }
            assert(!batch.contains(tx));
            assert forall|t: usize| #[trigger] s.waits(t) <==> left.waits(t) || more.contains(t) by {
                assert(s.waits(t) == (after.waits(t) || batch.contains(t)));
                assert(left.waits(t) == (after.waits(t) && t != tx));
                assert(more.contains(t) == (batch.contains(t) || t == tx));
            }
            assert forall|t: usize| #[trigger] more.contains(t) implies !left.waits(t) by {
                assert(left.waits(t) == (after.waits(t) && t != tx));
                if batch.contains(t) {
                    assert(!after.waits(t));
                }
            }
        }
    } else {
        assert(!s.run(0).0.contains(0usize));
    }
}

/// Who waits after a waiting transaction was handed out.
proof fn lemma_taken(s: SchedulerView, i: int)
    requires
        s.distinct(),
        0 <= i < s.pending.len(),
    ensures
        s.taken(i).distinct(),
        s.taken(i).pending.len() == s.pending.len() - 1,
        forall|tx: usize| #[trigger]
            s.taken(i).waits(tx) == (s.waits(tx) && tx != s.pending[i].tx_index),
{
    let left = s.taken(i);
    assert forall|a: int, b: int| 0 <= a < b < left.pending.len() implies (
    #[trigger] left.pending[a]).tx_index != (#[trigger] left.pending[b]).tx_index by {
        let x = if a < i {
            a
        } else {
            a + 1
        };
        let y = if b < i {
            b
        } else {
            b + 1
        };
        assert(s.pending[x].tx_index != s.pending[y].tx_index);
    }
    assert forall|tx: usize| #[trigger]
        left.waits(tx) == (s.waits(tx) && tx != s.pending[i].tx_index) by {
        if left.waits(tx) {
            let a = choose|a: int|
                0 <= a < left.pending.len() && (#[trigger] left.pending[a]).tx_index == tx;
            let x = if a < i {
                a
            } else {
                a + 1
            };
            assert(s.pending[x].tx_index == tx);
            assert(x < i ==> s.pending[x].tx_index != s.pending[i].tx_index);
            assert(i < x ==> s.pending[i].tx_index != s.pending[x].tx_index);
        }
        if s.waits(tx) && tx != s.pending[i].tx_index {
            let x = choose|x: int|
                0 <= x < s.pending.len() && (#[trigger] s.pending[x]).tx_index == tx;
            let a = if x < i {
                x
            } else {
                x - 1
            };
            assert(left.pending[a].tx_index == tx);
        }
    }
}

/// New priorities change nothing of who waits and of what they depend on.
pub proof fn law_new_priorities_keep_those_that_wait(s: SchedulerView, priorities: Seq<u64>)
    requires
        priorities.len() == s.pending.len(),
    ensures
        s.distinct() ==> s.reprioritized(priorities).distinct(),
        forall|tx: usize| #[trigger] s.reprioritized(priorities).waits(tx) == s.waits(tx),
        forall|i: int|
            0 <= i < s.pending.len() ==> (#[trigger] s.reprioritized(
                priorities,
            ).pending[i]).dependencies == s.pending[i].dependencies,
{
    let t = s.reprioritized(priorities);
    if s.distinct() {
        assert forall|i: int, j: int| 0 <= i < j < t.pending.len() implies (
        #[trigger] t.pending[i]).tx_index != (#[trigger] t.pending[j]).tx_index by {
            assert(s.pending[i].tx_index != s.pending[j].tx_index);
        }
    }
    assert forall|tx: usize| #[trigger] t.waits(tx) == s.waits(tx) by {
        if t.waits(tx) {
            let i = choose|i: int|
                0 <= i < t.pending.len() && (#[trigger] t.pending[i]).tx_index == tx;
            assert(s.pending[i].tx_index == tx);
        }
        if s.waits(tx) {
            let i = choose|i: int|
                0 <= i < s.pending.len() && (#[trigger] s.pending[i]).tx_index == tx;
            assert(t.pending[i].tx_index == tx);
        }
    }
}

} // verus!
