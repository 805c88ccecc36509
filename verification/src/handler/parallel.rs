//! A batch of transactions that run side by side.
use crate::collections::KeySet;
use crate::db::versioned::{StateView, VersionedStateDB, VersionedStateDBError};
use crate::handler::conflict_channel::{ConflictChannel, CHANNEL_CAPACITY};
use crate::handler::dependencies::{
    deps_closed, determine_reexecution_order, is_reexecution_order, DependencyTracker,
};
use crate::parallel::operation_logs::{
    empty_log, Conflict, Context, LogView, SharedOperationLog,
};
use crate::primitives::{Address, StorageKey, U256};
use vstd::prelude::*;

verus! {

/// The gas that the transactions of a batch used between them.
#[derive(Debug)]
pub struct ParallelGasTracker {
    total_gas_used: u64,
    gas_limit: u64,
}

impl ParallelGasTracker {
    /// The gas used so far.
    pub closed spec fn used(self) -> u64 {
        self.total_gas_used
    }

    pub closed spec fn limit(self) -> u64 {
        self.gas_limit
    }

    pub fn new(gas_limit: u64) -> (r: Self)
        ensures
            r.used() == 0,
            r.limit() == gas_limit,
    {
        ParallelGasTracker { total_gas_used: 0, gas_limit }
    }

    /// Adds to the gas used and tells whether the limit still holds. What goes over
    /// the limit counts as used too.
    pub fn add_gas(&mut self, amount: u64) -> (r: bool)
        requires
            old(self).used() + amount <= u64::MAX,
        ensures
            final(self).used() == old(self).used() + amount,
            final(self).limit() == old(self).limit(),
            r == (final(self).used() <= final(self).limit()),
    {
        self.total_gas_used = self.total_gas_used + amount;
        self.total_gas_used <= self.gas_limit
    }
}

/// Runs a batch of transactions side by side: each gets a log and a version of the
/// state, and those that got in each other's way run again, one after the other.
pub struct ParallelExecutionHandler<'a, BLOCK, TX> {
    gas_tracker: ParallelGasTracker,
    versioned_db: VersionedStateDB,
    operation_logs: Vec<SharedOperationLog<'a, BLOCK, TX>>,
    max_parallel_threads: usize,
    conflict_channel: ConflictChannel,
}

/// The handler as a state, the logs as far as they can be read, and the conflicts
/// that were reported.
#[verifier::ext_equal]
pub struct HandlerView<BLOCK, TX> {
    pub gas: ParallelGasTracker,
    pub state: StateView,
    pub logs: Seq<Option<LogView>>,
    pub contexts: Seq<Context<BLOCK, TX>>,
    pub threads: usize,
    pub reported: Seq<Conflict>,
}

/// A slot that the earlier log wrote and the later one noted, or an account that
/// both accessed.
pub open spec fn in_conflict(log: LogView, earlier: LogView) -> bool {
    earlier.tx_index < log.tx_index && ((exists|key: StorageKey| log.slot_conflict(earlier, key))
        || !log.accounts.disjoint(earlier.accounts))
}

/// Whether this is what two logs are in conflict about. A slot goes before an
/// account.
pub open spec fn is_conflict_of(log: LogView, earlier: LogView, conflict: Conflict) -> bool {
    match conflict {
        Conflict::StorageSlot(address, slot) => log.slot_conflict(earlier, (address, slot)),
        Conflict::AccountAccess(address) => log.accounts.contains(address)
            && earlier.accounts.contains(address) && forall|key: StorageKey|
            !log.slot_conflict(earlier, key),
    }
}

/// Whether one log is in conflict with another, both of which can be read.
pub open spec fn clash(logs: Seq<Option<LogView>>, i: int, j: int) -> bool {
    match (logs[i], logs[j]) {
        (Some(log), Some(earlier)) => in_conflict(log, earlier),
        _ => false,
    }
}

/// Whether a log is in conflict with any other.
pub open spec fn clashes(logs: Seq<Option<LogView>>, i: int) -> bool {
    exists|j: int| 0 <= j < logs.len() && #[trigger] clash(logs, i, j)
}

/// Whether `conflict` is what a log is in conflict about with the first log, in the
/// order of the batch, that it is in conflict with.
pub open spec fn first_clash(
    logs: Seq<Option<LogView>>,
    i: int,
    conflict: Conflict,
) -> bool {
    exists|j: int|
        0 <= j < logs.len() && #[trigger] clash(logs, i, j) && is_conflict_of(
            logs[i]->Some_0,
            logs[j]->Some_0,
            conflict,
        ) && forall|k: int| 0 <= k < j ==> !#[trigger] clash(logs, i, k)
}

/// What the check of one transaction may find.
pub open spec fn is_report(
    logs: Seq<Option<LogView>>,
    i: int,
    report: Option<Conflict>,
) -> bool {
    match report {
        Some(conflict) => first_clash(logs, i, conflict),
        None => !clashes(logs, i),
    }
}

/// How many of the transactions that ended are in conflict.
pub open spec fn clashing<R>(logs: Seq<Option<LogView>>, results: Seq<(usize, R)>) -> nat
    decreases results.len(),
{
    if results.len() == 0 {
        0
    } else {
        clashing(logs, results.drop_last()) + if clashes(logs, results.last().0 as int) {
            1nat
        } else {
            0
        }
    }
}

/// Whether these are the reports on the transactions that ended, one for each that
/// is in conflict, in their order.
pub open spec fn are_reports<R>(
    logs: Seq<Option<LogView>>,
    results: Seq<(usize, R)>,
    reports: Seq<Conflict>,
) -> bool
    decreases results.len(),
{
    if results.len() == 0 {
        reports.len() == 0
    } else if clashes(logs, results.last().0 as int) {
        reports.len() > 0 && first_clash(logs, results.last().0 as int, reports.last())
            && are_reports(logs, results.drop_last(), reports.drop_last())
    } else {
        are_reports(logs, results.drop_last(), reports)
    }
}

/// Whether a log accessed what a conflict is about.
pub open spec fn involved(log: LogView, conflict: Conflict) -> bool {
    match conflict {
        Conflict::StorageSlot(address, slot) => log.slots.contains((address, slot)),
        Conflict::AccountAccess(address) => log.accounts.contains(address),
    }
}

/// The transactions whose logs can be read and accessed what a conflict is about, in
/// the order of the logs.
pub open spec fn accessing(logs: Seq<Option<LogView>>, conflict: Conflict) -> Seq<usize>
    decreases logs.len(),
{
    if logs.len() == 0 {
        Seq::empty()
    } else {
        let before = accessing(logs.drop_last(), conflict);
        match logs.last() {
            Some(log) => if involved(log, conflict) {
                before.push(log.tx_index)
            } else {
                before
            },
            None => before,
        }
    }
}

/// The transactions that any of the conflicts concerns.
pub open spec fn concerned(logs: Seq<Option<LogView>>, conflicts: Seq<Conflict>) -> Set<usize>
    decreases conflicts.len(),
{
    if conflicts.len() == 0 {
        Set::empty()
    } else {
        concerned(logs, conflicts.drop_last()).union(accessing(logs, conflicts.last()).to_set())
    }
}

/// As many fresh versions, one on top of the other.
pub open spec fn snapshots(state: StateView, count: nat) -> StateView
    decreases count,
{
    if count == 0 {
        state
    } else {
        snapshots(state, (count - 1) as nat).snapshot()
    }
}

/// The logs after the transactions of `order` were set up to run again, the one at
/// position `k` on version `first + k`.
pub open spec fn restarted(
    logs: Seq<Option<LogView>>,
    order: Seq<usize>,
    first: int,
) -> Seq<Option<LogView>>
    decreases order.len(),
{
    if order.len() == 0 {
        logs
    } else {
        let before = restarted(logs, order.drop_last(), first);
        let tx = order.last();
        if tx < logs.len() && before[tx as int] is Some {
            before.update(tx as int, Some(empty_log(tx, (first + order.len() - 1) as u64)))
        } else {
            before
        }
    }
}

impl<BLOCK, TX> HandlerView<BLOCK, TX> {
    /// The handler after the transactions of `order` were set up to run again: a
    /// fresh version for each, one more on top, and their logs emptied.
    pub open spec fn reexecuted(self, order: Seq<usize>) -> HandlerView<BLOCK, TX> {
        HandlerView {
            state: snapshots(self.state, (order.len() + 1) as nat),
            logs: restarted(self.logs, order, self.state.current + 1),
            ..self
        }
    }

    /// Whether this handler becomes that one when some conflicts are resolved: each
    /// transaction that they concern is set up to run again, once.
    pub open spec fn resolves_to(
        self,
        conflicts: Seq<Conflict>,
        after: HandlerView<BLOCK, TX>,
    ) -> bool {
        exists|order: Seq<usize>|
            is_listing(order, concerned(self.logs, conflicts)) && after
                == #[trigger] self.reexecuted(order)
    }
}

/// Whether a sequence lists a set, each member once.
pub open spec fn is_listing(order: Seq<usize>, set: Set<usize>) -> bool {
    order.no_duplicates() && order.to_set() == set
}

/// The results put at the indices of their transactions, the last one where several
/// have the same index. Where there is none, the default result stands.
pub open spec fn placed<R>(results: Seq<(usize, R)>, len: nat) -> Seq<Option<R>>
    decreases results.len(),
{
    if results.len() == 0 {
        Seq::new(len, |i: int| None::<R>)
    } else {
        placed(results.drop_last(), len).update(
            results.last().0 as int,
            Some(results.last().1),
        )
    }
}

impl<BLOCK, TX> HandlerView<BLOCK, TX> {
    /// Whether this handler becomes that one, and these are the results that stand,
    /// when some conflicts are handled.
    pub open spec fn handles_to<R>(
        self,
        conflicts: Seq<Conflict>,
        results: Seq<(usize, R)>,
        after: HandlerView<BLOCK, TX>,
        standing: Seq<Option<R>>,
    ) -> bool {
        let drained = HandlerView { reported: Seq::empty(), ..self };
        if conflicts.len() == 0 {
            after == drained && standing == placed(results, results.len())
        } else {
            drained.resolves_to(conflicts, after) && standing == Seq::new(
                results.len(),
                |i: int| None::<R>,
            )
        }
    }
}

proof fn lemma_restarted_len(logs: Seq<Option<LogView>>, order: Seq<usize>, first: int)
    ensures
        restarted(logs, order, first).len() == logs.len(),
    decreases order.len(),
{
    if order.len() > 0 {
        lemma_restarted_len(logs, order.drop_last(), first);
    }
}

proof fn lemma_placed_len<R>(results: Seq<(usize, R)>, len: nat)
    requires
        forall|i: int| 0 <= i < results.len() ==> (#[trigger] results[i]).0 < len,
    ensures
        placed(results, len).len() == len,
    decreases results.len(),
{
    if results.len() > 0 {
        lemma_placed_len(results.drop_last(), len);
    }
}

proof fn lemma_clashing_grows<R>(
    logs: Seq<Option<LogView>>,
    results: Seq<(usize, R)>,
    n: int,
)
    requires
        0 <= n <= results.len(),
    ensures
        clashing(logs, results.take(n)) <= clashing(logs, results),
    decreases results.len() - n,
{
    if n < results.len() {
        lemma_clashing_grows(logs, results, n + 1);
        assert(results.take(n + 1).drop_last() =~= results.take(n));
    } else {
        assert(results.take(n) =~= results);
    }
}

/// The indices of the logs that can be read.
spec fn indices(logs: Seq<Option<LogView>>) -> Set<usize>
    decreases logs.len(),
{
    if logs.len() == 0 {
        Set::empty()
    } else {
        match logs.last() {
            Some(log) => indices(logs.drop_last()).insert(log.tx_index),
            None => indices(logs.drop_last()),
        }
    }
}

proof fn lemma_indices(logs: Seq<Option<LogView>>)
    ensures
        indices(logs).finite(),
        indices(logs).len() <= logs.len(),
    decreases logs.len(),
{
    if logs.len() > 0 {
        lemma_indices(logs.drop_last());
    }
}

proof fn lemma_accessing(logs: Seq<Option<LogView>>, conflict: Conflict)
    ensures
        accessing(logs, conflict).to_set().subset_of(indices(logs)),
    decreases logs.len(),
{
    if logs.len() > 0 {
        lemma_accessing(logs.drop_last(), conflict);
        let before = accessing(logs.drop_last(), conflict);
        assert forall|x: usize| accessing(logs, conflict).to_set().contains(x) implies indices(
            logs,
        ).contains(x) by {
            let i = accessing(logs, conflict).index_of(x);
            if i < before.len() {
                assert(before[i] == x);
                assert(before.to_set().contains(x));
            }
        }
    }
}

proof fn lemma_concerned(logs: Seq<Option<LogView>>, conflicts: Seq<Conflict>)
    ensures
        concerned(logs, conflicts).subset_of(indices(logs)),
    decreases conflicts.len(),
{
    if conflicts.len() > 0 {
        lemma_concerned(logs, conflicts.drop_last());
        lemma_accessing(logs, conflicts.last());
    }
}

/// There are no more transactions concerned than logs.
pub proof fn lemma_concerned_fit(logs: Seq<Option<LogView>>, conflicts: Seq<Conflict>)
    ensures
        concerned(logs, conflicts).finite(),
        concerned(logs, conflicts).len() <= logs.len(),
{
    lemma_indices(logs);
    lemma_concerned(logs, conflicts);
    vstd::set_lib::lemma_len_subset(concerned(logs, conflicts), indices(logs));
}

/// Where nothing depends on anything, an order of some transactions lists them, and
/// there are no more of them than logs.
proof fn lemma_order_without_dependencies(
    logs: Seq<Option<LogView>>,
    conflicts: Seq<Conflict>,
    order: Seq<usize>,
)
    requires
        is_reexecution_order(Map::empty(), concerned(logs, conflicts), order),
    ensures
        is_listing(order, concerned(logs, conflicts)),
        order.len() <= logs.len(),
{
    let queue = concerned(logs, conflicts);
    assert(deps_closed(Map::empty(), queue));
    assert forall|x: usize| order.to_set().contains(x) implies queue.contains(x) by {
        assert(order.contains(x));
        assert(queue.contains(x) || !queue.contains(x));
    }
    assert forall|x: usize| queue.contains(x) implies order.to_set().contains(x) by {
        assert(order.contains(x));
    }
    assert(order.to_set() =~= queue);
    lemma_indices(logs);
    lemma_concerned(logs, conflicts);
    vstd::set_lib::lemma_len_subset(queue, indices(logs));
    order.unique_seq_to_set();
}

impl<'a, BLOCK, TX> View for ParallelExecutionHandler<'a, BLOCK, TX> {
    type V = HandlerView<BLOCK, TX>;

    closed spec fn view(&self) -> HandlerView<BLOCK, TX> {
        HandlerView {
            gas: self.gas_tracker,
            state: self.versioned_db@,
            logs: self.operation_logs@.map_values(
                |log: SharedOperationLog<'a, BLOCK, TX>| log.readable(),
            ),
            contexts: self.operation_logs@.map_values(
                |log: SharedOperationLog<'a, BLOCK, TX>| log.log().context(),
            ),
            threads: self.max_parallel_threads,
            reported: self.conflict_channel@,
        }
    }
}

impl<'a, BLOCK, TX> ParallelExecutionHandler<'a, BLOCK, TX> {
    pub closed spec fn wf(self) -> bool {
        &&& self.versioned_db.wf()
        &&& self.conflict_channel.wf()
        &&& forall|i: int|
            0 <= i < self.operation_logs@.len() ==> (#[trigger] self.operation_logs@[i]).wf()
    }

    /// A handler without a batch, on a state without versions.
    pub fn new(gas_limit: u64, max_threads: usize) -> (r: Self)
        ensures
            r.wf(),
            r@.gas.used() == 0,
            r@.gas.limit() == gas_limit,
            r@.state == (StateView { versions: Map::empty(), current: 0, metadata: Map::empty() }),
            r@.logs == Seq::<Option<LogView>>::empty(),
            r@.contexts == Seq::<Context<BLOCK, TX>>::empty(),
            r@.threads == max_threads,
            r@.reported == Seq::<Conflict>::empty(),
    {
        let r = ParallelExecutionHandler {
            gas_tracker: ParallelGasTracker::new(gas_limit),
            versioned_db: VersionedStateDB::new(),
            operation_logs: Vec::new(),
            max_parallel_threads: max_threads,
            conflict_channel: ConflictChannel::new(),
        };
        assert(r@.logs =~= Seq::<Option<LogView>>::empty());
        assert(r@.contexts =~= Seq::<Context<BLOCK, TX>>::empty());
        r
    }

    /// How many threads may run transactions.
    pub fn max_parallel_threads(&self) -> (r: usize)
        ensures
            r == self@.threads,
    {
        self.max_parallel_threads
    }

    /// How many transactions the batch has.
    pub fn batch_len(&self) -> (r: usize)
        ensures
            r == self@.logs.len(),
    {
        self.operation_logs.len()
    }

    /// The version of the state that is current.
    pub fn current_version(&self) -> (r: u64)
        ensures
            r == self@.state.current,
    {
        self.versioned_db.current_version()
    }

    /// The gas of the batch.
    pub fn gas_tracker(&mut self) -> (r: &mut ParallelGasTracker)
        ensures
            *r == old(self)@.gas,
            final(self)@ == (HandlerView { gas: *final(r), ..old(self)@ }),
            old(self).wf() ==> final(self).wf(),
    {
        &mut self.gas_tracker
    }

    /// The log of a transaction of the batch, to record what it does.
    pub fn operation_log(&mut self, tx_idx: usize) -> (r: &mut SharedOperationLog<'a, BLOCK, TX>)
        requires
            old(self).wf(),
            tx_idx < old(self)@.logs.len(),
        ensures
            r.wf(),
            r.readable() == old(self)@.logs[tx_idx as int],
            r.log().context() == old(self)@.contexts[tx_idx as int],
            final(r).wf() ==> final(self).wf(),
            final(self)@ == (HandlerView {
                logs: old(self)@.logs.update(tx_idx as int, final(r).readable()),
                contexts: old(self)@.contexts.update(tx_idx as int, final(r).log().context()),
                ..old(self)@
            }),
    {
        &mut self.operation_logs[tx_idx]
    }

    /// Starts a batch on a fresh version, which is returned: every transaction gets
    /// an empty log.
    pub fn begin_batch(&mut self, contexts: &'a Vec<Context<BLOCK, TX>>) -> (r: u64)
        requires
            old(self).wf(),
            old(self)@.state.current < u64::MAX,
        ensures
            final(self).wf(),
            r == old(self)@.state.current + 1,
            final(self)@ == (HandlerView {
                state: old(self)@.state.snapshot(),
                logs: Seq::new(contexts@.len(), |i: int| Some(empty_log(i as usize, r))),
                contexts: contexts@,
                ..old(self)@
            }),
    {
        let base_version = self.versioned_db.create_snapshot();
        let mut logs: Vec<SharedOperationLog<'a, BLOCK, TX>> = Vec::new();
        let n: usize = contexts.len();
        for i in 0..n
            invariant
                n == contexts@.len(),
                logs@.len() == i,
                forall|j: int|
                    0 <= j < i ==> (#[trigger] logs@[j]).wf() && logs@[j].readable() == Some(
                        empty_log(j as usize, base_version),
                    ) && logs@[j].log().context() == contexts@[j],
        {
            logs.push(SharedOperationLog::for_transaction(i, base_version, &contexts[i]));
        }
        self.operation_logs = logs;
        assert(self@.logs =~= Seq::new(
            contexts@.len(),
            |i: int| Some(empty_log(i as usize, base_version)),
        ));
        assert(self@.contexts =~= contexts@);
        base_version
    }

    /// Puts a fresh version on top for the next transaction and returns it.
    pub fn begin_transaction(&mut self) -> (r: u64)
        requires
            old(self).wf(),
            old(self)@.state.current < u64::MAX,
        ensures
            final(self).wf(),
            r == old(self)@.state.current + 1,
            final(self)@ == (HandlerView { state: old(self)@.state.snapshot(), ..old(self)@ }),
    {
        self.versioned_db.create_snapshot()
    }

    /// What a transaction of the batch is in conflict about with the first
    /// transaction before it that it is in conflict with. A log that cannot be read
    /// is in conflict with none.
    pub fn check_conflicts(&self, tx_idx: usize) -> (r: Option<Conflict>)
        requires
            tx_idx < self@.logs.len(),
        ensures
            is_report(self@.logs, tx_idx as int, r),
    {
        let n: usize = self.operation_logs.len();
        for j in 0..n
            invariant
                n == self.operation_logs@.len(),
                tx_idx < n,
                forall|k: int| 0 <= k < j ==> !#[trigger] clash(self@.logs, tx_idx as int, k),
        {
            let ghost logs = self@.logs;
            if let Ok(current_log) = self.operation_logs[tx_idx].read() {
                if let Ok(prev_log) = self.operation_logs[j].read() {
                    assert(logs[tx_idx as int] == Some(current_log@));
                    assert(logs[j as int] == Some(prev_log@));
                    if let Some(conflict) = current_log.detect_conflicts(prev_log) {
                        assert(is_conflict_of(current_log@, prev_log@, conflict));
                        assert(in_conflict(current_log@, prev_log@)) by {
                            match conflict {
                                Conflict::StorageSlot(address, slot) => {
                                    assert(current_log@.slot_conflict(prev_log@, (address, slot)));
                                },
                                Conflict::AccountAccess(address) => {
                                    assert(current_log@.accounts.contains(address));
                                },
                            }
                        }
                        assert(clash(logs, tx_idx as int, j as int));
                        return Some(conflict);
                    }
                }
            }
            assert(!clash(logs, tx_idx as int, j as int));
        }
        None
    }

    /// How many of the transactions that ended are in conflict.
    pub fn count_conflicts<R>(&self, results: &Vec<(usize, R)>) -> (r: usize)
        requires
            forall|i: int| 0 <= i < results@.len() ==> (#[trigger] results@[i]).0 < self@.logs.len(),
        ensures
            r == clashing(self@.logs, results@),
    {
        let n: usize = results.len();
        let mut count: usize = 0;
        for i in 0..n
            invariant
                n == results@.len(),
                forall|i: int|
                    0 <= i < results@.len() ==> (#[trigger] results@[i]).0 < self@.logs.len(),
                count == clashing(self@.logs, results@.take(i as int)),
                count <= i,
        {
            assert(results@.take(i + 1).drop_last() =~= results@.take(i as int));
            assert(results@.take(i + 1).last() == results@[i as int]);
            if self.check_conflicts(results[i].0).is_some() {
                count = count + 1;
            }
        }
        assert(results@.take(n as int) =~= results@);
        count
    }

    /// Ends a batch whose transactions ran: checks each for conflicts and reports
    /// what is found, then handles what was reported. A full channel would wait for
    /// ever, so what is reported has to fit.
    pub fn execute_transactions_parallel<R>(&mut self, results: Vec<(usize, R)>) -> (r: Result<
        Vec<Option<R>>,
        VersionedStateDBError,
    >)
        requires
            old(self).wf(),
            forall|i: int|
                0 <= i < results@.len() ==> (#[trigger] results@[i]).0 < results@.len(),
            results@.len() <= old(self)@.logs.len(),
            old(self)@.reported.len() + clashing(old(self)@.logs, results@) <= CHANNEL_CAPACITY,
            old(self)@.state.current + old(self)@.logs.len() < u64::MAX,
        ensures
            final(self).wf(),
            r is Ok,
            exists|reports: Seq<Conflict>|
                are_reports(old(self)@.logs, results@, reports) && #[trigger] old(
                    self,
                )@.handles_to(old(self)@.reported + reports, results@, final(self)@, r->Ok_0@),
    {
        let n: usize = results.len();
        let ghost mut reports: Seq<Conflict> = Seq::empty();
        assert(results@.take(0) =~= Seq::<(usize, R)>::empty());
        assert(old(self)@.reported + reports =~= old(self)@.reported);
        for i in 0..n
            invariant
                n == results@.len(),
                self.wf(),
                forall|i: int|
                    0 <= i < results@.len() ==> (#[trigger] results@[i]).0 < results@.len(),
                results@.len() <= old(self)@.logs.len(),
                old(self)@.reported.len() + clashing(old(self)@.logs, results@)
                    <= CHANNEL_CAPACITY,
                self@ == (HandlerView {
                    reported: old(self)@.reported + reports,
                    ..old(self)@
                }),
                are_reports(old(self)@.logs, results@.take(i as int), reports),
                reports.len() == clashing(old(self)@.logs, results@.take(i as int)),
        {
            assert(results@.take(i + 1).drop_last() =~= results@.take(i as int));
            assert(results@.take(i + 1).last() == results@[i as int]);
            proof {
                lemma_clashing_grows(old(self)@.logs, results@, i + 1);
            }
            if let Some(conflict) = self.check_conflicts(results[i].0) {
                self.conflict_channel.send(conflict);
                proof {
                    let more = reports.push(conflict);
                    assert(more.drop_last() =~= reports);
                    assert((old(self)@.reported + reports).push(conflict) =~= old(self)@.reported
                        + more);
                    reports = more;
                }
                assert(self@ =~= HandlerView {
                    reported: old(self)@.reported + reports,
                    ..old(self)@
                });
            }
        }
        assert(results@.take(n as int) =~= results@);
        let ghost before = self@;
        let r = self.handle_conflicts(results);
        proof {
            let conflicts = old(self)@.reported + reports;
            assert(before == HandlerView { reported: conflicts, ..old(self)@ });
            if conflicts.len() > 0 {
                assert(HandlerView { reported: Seq::empty(), ..before } =~= HandlerView {
                    reported: Seq::empty(),
                    ..old(self)@
                });
            }
            assert(old(self)@.handles_to(conflicts, results@, self@, r->Ok_0@));
        }
        r
    }

    /// Takes the reported conflicts out of the channel. Where there are none, the
    /// results go to the indices of their transactions; else the conflicts are
    /// resolved, and no result stands.
    fn handle_conflicts<R>(&mut self, results: Vec<(usize, R)>) -> (r: Result<
        Vec<Option<R>>,
        VersionedStateDBError,
    >)
        requires
            old(self).wf(),
            forall|i: int|
                0 <= i < results@.len() ==> (#[trigger] results@[i]).0 < results@.len(),
            old(self)@.state.current + old(self)@.logs.len() < u64::MAX,
        ensures
            final(self).wf(),
            r is Ok,
            old(self)@.handles_to(old(self)@.reported, results@, final(self)@, r->Ok_0@),
    {
        let conflicts = self.conflict_channel.drain();
        assert(self@ =~= HandlerView { reported: Seq::empty(), ..old(self)@ });
        let n: usize = results.len();
        let mut final_results: Vec<Option<R>> = Vec::new();
        for i in 0..n
            invariant
                final_results@ == Seq::new(i as nat, |i: int| None::<R>),
        {
            final_results.push(None);
            assert(final_results@ =~= Seq::new((i + 1) as nat, |i: int| None::<R>));
        }
        if conflicts.len() == 0 {
            let ghost all = results@;
            let mut i: usize = 0;
            assert(all.take(0) =~= Seq::<(usize, R)>::empty());
            assert(placed(all.take(0), n as nat) =~= final_results@);
            for (tx_idx, result) in it: results
                invariant
                    it.seq() == all,
                    i == it.index(),
                    n == all.len(),
                    forall|i: int| 0 <= i < all.len() ==> (#[trigger] all[i]).0 < all.len(),
                    final_results@ == placed(all.take(it.index()), n as nat),
            {
                proof {
                    assert(all.take(i + 1).drop_last() =~= all.take(i as int));
                    assert(all.take(i + 1).last() == all[i as int]);
                    lemma_placed_len(all.take(i as int), n as nat);
                }
                final_results.set(tx_idx, Some(result));
                i = i + 1;
            }
            assert(all.take(n as int) =~= all);
        } else {
            let resolved = self.resolve_conflicts(&conflicts);
            if let Err(e) = resolved {
                return Err(e);
            }
        }
        Ok(final_results)
    }

    /// Sets every transaction up to run again that accessed what a conflict is
    /// about.
    fn resolve_conflicts(&mut self, conflicts: &Vec<Conflict>) -> (r: Result<
        (),
        VersionedStateDBError,
    >)
        requires
            old(self).wf(),
            old(self)@.state.current + old(self)@.logs.len() < u64::MAX,
        ensures
            final(self).wf(),
            r is Ok,
            old(self)@.resolves_to(conflicts@, final(self)@),
    {
        let mut dependency_tracker = DependencyTracker::new();
        let mut reexecution_queue: KeySet<usize> = KeySet::new();
        let n: usize = conflicts.len();
        for i in 0..n
            invariant
                n == conflicts@.len(),
                *self == *old(self),
                dependency_tracker.wf(),
                dependency_tracker@.dependencies == Map::<usize, Set<usize>>::empty(),
                reexecution_queue.wf(),
                reexecution_queue@ == concerned(self@.logs, conflicts@.take(i as int)),
        {
            let conflict = conflicts[i];
            let found = match conflict {
                Conflict::StorageSlot(address, slot) => self.find_conflicting_logs(&address, &slot),
                Conflict::AccountAccess(address) => self.find_conflicting_account_logs(&address),
            };
            let ghost before = reexecution_queue@;
            if let Some(txs) = found {
                assert(txs@ == accessing(self@.logs, conflict));
                let m: usize = txs.len();
                assert(txs@.take(0).to_set() =~= Set::<usize>::empty());
                assert(before.union(txs@.take(0).to_set()) =~= before);
                for k in 0..m
                    invariant
                        m == txs@.len(),
                        dependency_tracker.wf(),
                        dependency_tracker@.dependencies == Map::<usize, Set<usize>>::empty(),
                        reexecution_queue.wf(),
                        reexecution_queue@ == before.union(txs@.take(k as int).to_set()),
                {
                    let tx_idx = txs[k];
                    reexecution_queue.insert(tx_idx);
                    match conflict {
                        Conflict::StorageSlot(address, slot) => {
                            dependency_tracker.record_slot_access(address, slot, tx_idx);
                        },
                        Conflict::AccountAccess(address) => {
                            dependency_tracker.record_account_access(address, tx_idx);
                        },
                    }
                    proof {
                        assert(txs@.take(k + 1) =~= txs@.take(k as int).push(tx_idx));
                        txs@.take(k as int).lemma_push_to_set_commute(tx_idx);
                        assert(before.union(txs@.take(k as int).to_set().insert(tx_idx))
                            =~= before.union(txs@.take(k as int).to_set()).insert(tx_idx));
                    }
                }
                assert(txs@.take(m as int) =~= txs@);
            }
            assert(conflicts@.take(i + 1).drop_last() =~= conflicts@.take(i as int));
            assert(conflicts@.take(i + 1).last() == conflicts@[i as int]);
        }
        assert(conflicts@.take(n as int) =~= conflicts@);
        let reexecution_order = determine_reexecution_order(
            &dependency_tracker,
            &reexecution_queue,
        );
        proof {
            lemma_order_without_dependencies(self@.logs, conflicts@, reexecution_order@);
        }
        self.reexecute_transactions(reexecution_order)
    }

    /// The transactions whose logs accessed a slot.
    pub fn find_conflicting_logs(&self, address: &Address, slot: &U256) -> (r: Option<Vec<usize>>)
        ensures
            r is Some,
            r->Some_0@ == accessing(self@.logs, Conflict::StorageSlot(*address, *slot)),
    {
        let ghost conflict = Conflict::StorageSlot(*address, *slot);
        let mut conflicting_txs: Vec<usize> = Vec::new();
        let n: usize = self.operation_logs.len();
        for i in 0..n
            invariant
                n == self.operation_logs@.len(),
                conflict == Conflict::StorageSlot(*address, *slot),
                conflicting_txs@ == accessing(self@.logs.take(i as int), conflict),
        {
            assert(self@.logs.take(i + 1).drop_last() =~= self@.logs.take(i as int));
            assert(self@.logs.take(i + 1).last() == self.operation_logs@[i as int].readable());
            if let Ok(op_log) = self.operation_logs[i].read() {
                if op_log.accessed_slot(*address, *slot) {
                    conflicting_txs.push(op_log.tx_index());
                }
            }
        }
        assert(self@.logs.take(n as int) =~= self@.logs);
        Some(conflicting_txs)
    }

    /// The transactions whose logs accessed an account.
    pub fn find_conflicting_account_logs(&self, address: &Address) -> (r: Option<Vec<usize>>)
        ensures
            r is Some,
            r->Some_0@ == accessing(self@.logs, Conflict::AccountAccess(*address)),
    {
        let ghost conflict = Conflict::AccountAccess(*address);
        let mut conflicting_txs: Vec<usize> = Vec::new();
        let n: usize = self.operation_logs.len();
        for i in 0..n
            invariant
                n == self.operation_logs@.len(),
                conflict == Conflict::AccountAccess(*address),
                conflicting_txs@ == accessing(self@.logs.take(i as int), conflict),
        {
            assert(self@.logs.take(i + 1).drop_last() =~= self@.logs.take(i as int));
            assert(self@.logs.take(i + 1).last() == self.operation_logs@[i as int].readable());
            if let Ok(op_log) = self.operation_logs[i].read() {
                if op_log.accessed_account(*address) {
                    conflicting_txs.push(op_log.tx_index());
                }
            }
        }
        assert(self@.logs.take(n as int) =~= self@.logs);
        Some(conflicting_txs)
    }

    /// Sets transactions up to run again in an order: each on a fresh version and
    /// with an empty log. An index without a log, or with one that cannot be read,
    /// still takes a version.
    fn reexecute_transactions(&mut self, reexecution_order: Vec<usize>) -> (r: Result<
        (),
        VersionedStateDBError,
    >)
        requires
            old(self).wf(),
            old(self)@.state.current + reexecution_order@.len() < u64::MAX,
        ensures
            final(self).wf(),
            r is Ok,
            final(self)@ == old(self)@.reexecuted(reexecution_order@),
    {
        let ghost order = reexecution_order@;
        let ghost first = old(self)@.state.current + 1;
        let mut current_version = self.versioned_db.create_snapshot();
        let n: usize = reexecution_order.len();
        assert(order.take(0) =~= Seq::<usize>::empty());
        assert(snapshots(old(self)@.state, 0) == old(self)@.state);
        assert(snapshots(old(self)@.state, 1) == old(self)@.state.snapshot());
        assert(self@ =~= old(self)@.reexecuted(order.take(0)));
        for i in 0..n
            invariant
                self.wf(),
                order == reexecution_order@,
                n == order.len(),
                first == old(self)@.state.current + 1,
                old(self)@.state.current + n < u64::MAX,
                current_version == first + i,
                self@.state.current == current_version,
                self@.state.versions.contains_key(current_version),
                self@ == old(self)@.reexecuted(order.take(i as int)),
        {
            let tx_idx = reexecution_order[i];
            let ghost logs = self@.logs;
            proof {
                assert(order.take(i + 1).drop_last() =~= order.take(i as int));
                assert(order.take(i + 1).last() == tx_idx);
                lemma_restarted_len(old(self)@.logs, order.take(i as int), first);
            }
            let switched = self.versioned_db.switch_to_version(current_version);
            if let Err(e) = switched {
                return Err(e);
            }
            assert(self@ =~= old(self)@.reexecuted(order.take(i as int)));
            if tx_idx < self.operation_logs.len() {
                let _ = self.operation_logs[tx_idx].restart(tx_idx, current_version);
            }
            assert(self@.logs =~= restarted(old(self)@.logs, order.take(i + 1), first));
            assert(self@.contexts =~= old(self)@.contexts);
            let ghost state = self@.state;
            current_version = self.versioned_db.create_snapshot();
            proof {
                assert(state == snapshots(old(self)@.state, (i + 1) as nat));
                assert(self@.state == snapshots(old(self)@.state, (i + 2) as nat));
                assert(self@ =~= old(self)@.reexecuted(order.take(i + 1)));
            }
        }
        assert(order.take(n as int) =~= order);
        Ok(())
    }
}

/// The log of a transaction that is set up to run again, by its position.
proof fn lemma_restarted(
    logs: Seq<Option<LogView>>,
    order: Seq<usize>,
    first: int,
    tx: usize,
)
    requires
        order.no_duplicates(),
        tx < logs.len(),
    ensures
        !order.contains(tx) || logs[tx as int] is None ==> restarted(logs, order, first)[tx as int]
            == logs[tx as int],
        order.contains(tx) && logs[tx as int] is Some ==> restarted(logs, order, first)[tx as int]
            == Some(empty_log(tx, (first + order.index_of(tx)) as u64)),
    decreases order.len(),
{
    if order.len() > 0 {
        let rest = order.drop_last();
        lemma_restarted_len(logs, rest, first);
        lemma_restarted(logs, rest, first, tx);
        if order.contains(tx) {
            let i = order.index_of(tx);
            if i < rest.len() {
                assert(rest[i] == tx);
                assert(rest[rest.index_of(tx)] == tx);
                assert(order[rest.index_of(tx)] == tx);
            } else {
                assert(!rest.contains(tx)) by {
                    if rest.contains(tx) {
                        let k = rest.index_of(tx);
                        assert(order[k] == rest[k]);
                    }
                }
            }
        } else if rest.contains(tx) {
            let k = rest.index_of(tx);
            assert(order[k] == rest[k]);
        }
    }
}

/// Transactions that are in nobody's way keep their results, and the state and the
/// logs stay as they are.
pub proof fn law_results_without_conflict_stand<BLOCK, TX, R>(
    handler: HandlerView<BLOCK, TX>,
    results: Seq<(usize, R)>,
    reports: Seq<Conflict>,
    after: HandlerView<BLOCK, TX>,
    standing: Seq<Option<R>>,
    i: int,
)
    requires
        handler.reported.len() == 0,
        forall|k: int|
            0 <= k < results.len() ==> (#[trigger] results[k]).0 < results.len() && !clashes(
                handler.logs,
                results[k].0 as int,
            ),
        forall|k: int, l: int|
            0 <= k < l < results.len() ==> (#[trigger] results[k]).0 != (#[trigger] results[l]).0,
        are_reports(handler.logs, results, reports),
        handler.handles_to(handler.reported + reports, results, after, standing),
        0 <= i < results.len(),
    ensures
        standing[results[i].0 as int] == Some(results[i].1),
        after.state == handler.state,
        after.logs == handler.logs,
{
    lemma_no_reports(handler.logs, results, reports);
    lemma_placed(results, results.len(), i);
}

proof fn lemma_no_reports<R>(
    logs: Seq<Option<LogView>>,
    results: Seq<(usize, R)>,
    reports: Seq<Conflict>,
)
    requires
        forall|k: int|
            0 <= k < results.len() ==> !clashes(logs, (#[trigger] results[k]).0 as int),
        are_reports(logs, results, reports),
    ensures
        reports.len() == 0,
    decreases results.len(),
{
    if results.len() > 0 {
        assert(results.last() == results[results.len() - 1]);
        lemma_no_reports(logs, results.drop_last(), reports);
    }
}

proof fn lemma_placed<R>(results: Seq<(usize, R)>, len: nat, i: int)
    requires
        forall|k: int| 0 <= k < results.len() ==> (#[trigger] results[k]).0 < len,
        forall|k: int, l: int|
            0 <= k < l < results.len() ==> (#[trigger] results[k]).0 != (#[trigger] results[l]).0,
        0 <= i < results.len(),
    ensures
        placed(results, len)[results[i].0 as int] == Some(results[i].1),
    decreases results.len(),
{
    let rest = results.drop_last();
    lemma_placed_len(rest, len);
    if i < rest.len() {
        lemma_placed(rest, len, i);
        assert(results[i].0 != results[results.len() - 1].0);
    }
}

/// Every transaction that a conflict concerns starts again with an empty log, on a
/// version that is newer than all that were there before; the logs of the others
/// stay as they are.
pub proof fn law_concerned_transactions_start_again<BLOCK, TX>(
    handler: HandlerView<BLOCK, TX>,
    conflicts: Seq<Conflict>,
    after: HandlerView<BLOCK, TX>,
    tx: usize,
)
    requires
        handler.resolves_to(conflicts, after),
        tx < handler.logs.len(),
        handler.logs[tx as int] is Some,
        handler.state.current + handler.logs.len() < u64::MAX,
    ensures
        concerned(handler.logs, conflicts).contains(tx) ==> exists|version: u64|
            handler.state.current < version && after.logs[tx as int] == Some(
                #[trigger] empty_log(tx, version),
            ),
        !concerned(handler.logs, conflicts).contains(tx) ==> after.logs[tx as int]
            == handler.logs[tx as int],
{
    let order = choose|order: Seq<usize>|
        is_listing(order, concerned(handler.logs, conflicts)) && after
            == #[trigger] handler.reexecuted(order);
    lemma_restarted(handler.logs, order, handler.state.current + 1, tx);
    lemma_indices(handler.logs);
    lemma_concerned(handler.logs, conflicts);
    vstd::set_lib::lemma_len_subset(
        concerned(handler.logs, conflicts),
        indices(handler.logs),
    );
    order.unique_seq_to_set();
    if concerned(handler.logs, conflicts).contains(tx) {
        assert(order.to_set().contains(tx));
        let version = (handler.state.current + 1 + order.index_of(tx)) as u64;
        assert(after.logs[tx as int] == Some(empty_log(tx, version)));
    } else {
        if order.contains(tx) {
            assert(order.to_set().contains(tx));
        }
    }
}

proof fn lemma_accessing_contains(logs: Seq<Option<LogView>>, conflict: Conflict, i: int)
    requires
        0 <= i < logs.len(),
        logs[i] is Some,
        involved(logs[i]->Some_0, conflict),
    ensures
        accessing(logs, conflict).to_set().contains(logs[i]->Some_0.tx_index),
    decreases logs.len(),
{
    let found = accessing(logs, conflict);
    if i < logs.len() - 1 {
        lemma_accessing_contains(logs.drop_last(), conflict, i);
        let before = accessing(logs.drop_last(), conflict);
        let k = before.index_of(logs[i]->Some_0.tx_index);
        assert(found[k] == before[k]);
    } else {
        assert(found[found.len() - 1] == logs[i]->Some_0.tx_index);
    }
}

proof fn lemma_concerned_contains(
    logs: Seq<Option<LogView>>,
    conflicts: Seq<Conflict>,
    conflict: Conflict,
    tx: usize,
)
    requires
        conflicts.contains(conflict),
        accessing(logs, conflict).to_set().contains(tx),
    ensures
        concerned(logs, conflicts).contains(tx),
    decreases conflicts.len(),
{
    let i = conflicts.index_of(conflict);
    if i < conflicts.len() - 1 {
        assert(conflicts.drop_last()[i] == conflict);
        lemma_concerned_contains(logs, conflicts.drop_last(), conflict, tx);
    }
}

/// Both transactions of a reported conflict are among those that start again, if
/// what they noted was recorded as operations too.
pub proof fn law_both_sides_of_a_conflict_are_concerned(
    logs: Seq<Option<LogView>>,
    conflicts: Seq<Conflict>,
    conflict: Conflict,
    i: int,
    j: int,
)
    requires
        conflicts.contains(conflict),
        0 <= i < logs.len(),
        0 <= j < logs.len(),
        logs[i] is Some,
        logs[j] is Some,
        is_conflict_of(logs[i]->Some_0, logs[j]->Some_0, conflict),
        logs[i]->Some_0.read_set().union(logs[i]->Some_0.write_set()).subset_of(
            logs[i]->Some_0.slots,
        ),
        logs[j]->Some_0.write_set().subset_of(logs[j]->Some_0.slots),
    ensures
        concerned(logs, conflicts).contains(logs[i]->Some_0.tx_index),
        concerned(logs, conflicts).contains(logs[j]->Some_0.tx_index),
{
    assert(involved(logs[i]->Some_0, conflict));
    assert(involved(logs[j]->Some_0, conflict));
    lemma_accessing_contains(logs, conflict, i);
    lemma_accessing_contains(logs, conflict, j);
    lemma_concerned_contains(logs, conflicts, conflict, logs[i]->Some_0.tx_index);
    lemma_concerned_contains(logs, conflicts, conflict, logs[j]->Some_0.tx_index);
}

/// In a well-formed handler the state and every log that can be read are consistent.
pub proof fn law_wf_is_consistent<'a, BLOCK, TX>(handler: ParallelExecutionHandler<'a, BLOCK, TX>)
    requires
        handler.wf(),
    ensures
        handler@.state.consistent(),
        handler@.logs.len() == handler@.contexts.len(),
        handler@.reported.len() <= CHANNEL_CAPACITY,
        forall|i: int|
            0 <= i < handler@.logs.len() ==> ((#[trigger] handler@.logs[i]) matches Some(log)
                ==> log.consistent()),
{
    crate::db::versioned::law_wf_is_consistent(handler.versioned_db);
    handler.conflict_channel.lemma_fits();
    assert forall|i: int| 0 <= i < handler@.logs.len() implies ((
    #[trigger] handler@.logs[i]) matches Some(log) ==> log.consistent()) by {
        crate::parallel::operation_logs::law_shared_log_is_consistent(handler.operation_logs@[i]);
    }
}

} // verus!
