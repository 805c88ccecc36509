//! Runs a list of transactions in batches: it predicts what they depend on, schedules
//! them, finds conflicts once they have run, and learns from those.
//!
//! The transactions themselves are executed by the caller, who is told what to run
//! next and reports what came of it. Times are nanoseconds on a clock of the caller's.
use crate::collections::KeySet;
use crate::db::versioned::{StateView, VersionedStateDB};
use crate::parallel::conflict_detector::{
    conflict_views, history_is_backed, law_a_first_log_keeps_the_history_backed,
    law_nothing_shared_no_conflicts, no_accesses, reads_of, shared_addresses, writes_of, ConflictDetector, ConflictType,
    ConflictView, DetectorView,
};
use crate::parallel::operation_logs::{
    address_of, empty_log, touches_slot, Context, LogView, Operation, SharedOperationLog,
};
use crate::parallel::predictor::{DependencyPredictor, PredictorView};
use crate::parallel::reexecution::{
    plan_for, step_of, PartialReexecutor, PlanView, ReexecutionPlan, ReexecutionStep,
};
use crate::primitives::{Address, StorageKey, U256};
use crate::scheduler::scheduler::{
    law_a_batch_is_not_empty_where_something_can_run, law_a_batch_leaves_the_others_waiting,
    law_independent_transactions_fill_a_batch, law_new_priorities_keep_those_that_wait,
    SchedulerView, TransactionScheduler, TransactionSchedulingInfo, WaitingView,
};
use vstd::prelude::*;

verus! {

/// How long a pattern stays known.
pub const PATTERN_TIMEOUT: u64 = 3_600_000_000_000;

/// How many past accesses are kept.
pub const MAX_HISTORY: usize = 1000;

/// Every how many operations a transaction has a checkpoint.
pub const CHECKPOINT_INTERVAL: usize = 100;

/// What came of one transaction.
#[derive(Debug)]
pub struct ExecutionResult<R> {
    pub result: R,
    pub gas_used: u64,
    pub execution_time: u64,
    pub conflicts_resolved: usize,
    pub operations_reexecuted: usize,
}

/// What the check of a transaction that ran has found.
#[derive(Debug)]
pub struct TransactionCheck {
    /// How many conflicts it has.
    pub conflicts_resolved: usize,
    /// How many of its operations have to run again.
    pub operations_reexecuted: usize,
    /// From where they run again, if they do.
    pub plan: Option<ReexecutionPlan>,
}

/// What one execution of a transaction gave.
#[derive(Debug)]
pub struct Executed<R> {
    pub result: R,
    pub gas_used: u64,
}

/// What came of a transaction: the result of its last execution with the gas that it
/// used, and what its check has found. A transaction that ran again keeps nothing of its
/// first execution.
pub fn finished<R>(
    check: &TransactionCheck,
    first: Executed<R>,
    again: Option<Executed<R>>,
    execution_time: u64,
) -> (r: ExecutionResult<R>)
    ensures
        ({
            let standing = match again {
                Some(executed) => executed,
                None => first,
            };
            r == (ExecutionResult {
                result: standing.result,
                gas_used: standing.gas_used,
                execution_time,
                conflicts_resolved: check.conflicts_resolved,
                operations_reexecuted: check.operations_reexecuted,
            })
        }),
{
    let standing = match again {
        Some(executed) => executed,
        None => first,
    };
    ExecutionResult {
        result: standing.result,
        gas_used: standing.gas_used,
        execution_time,
        conflicts_resolved: check.conflicts_resolved,
        operations_reexecuted: check.operations_reexecuted,
    }
}

/// How far a list of transactions has got.
#[derive(Debug)]
pub struct ExecutionRun<R> {
    results: Vec<Option<ExecutionResult<R>>>,
    retry_count: usize,
}

/// What to do next for a list of transactions.
#[derive(Debug)]
pub enum Progress<R> {
    /// These transactions are to be executed.
    Execute { run: ExecutionRun<R>, batch: Vec<usize> },
    /// Every transaction has its result.
    Finished { results: Vec<ExecutionResult<R>> },
    /// There are no retries left, and some transaction has no result.
    Incomplete { run: ExecutionRun<R> },
}

impl<R> ExecutionRun<R> {
    /// The results by the position of the transactions in the list.
    pub closed spec fn results(self) -> Seq<Option<ExecutionResult<R>>> {
        self.results@
    }

    /// How many batches brought no new result.
    pub closed spec fn retries(self) -> usize {
        self.retry_count
    }

    /// How many transactions have no result yet.
    fn missing(&self) -> (r: usize)
        ensures
            r == missing(self.results()),
    {
        let n: usize = self.results.len();
        let mut count: usize = 0;
        for i in 0..n
            invariant
                n == self.results@.len(),
                count == missing(self.results@.take(i as int)),
                count <= i,
        {
            assert(self.results@.take(i + 1).drop_last() =~= self.results@.take(i as int));
            assert(self.results@.take(i + 1).last() == self.results@[i as int]);
            if self.results[i].is_none() {
                count = count + 1;
            }
        }
        assert(self.results@.take(n as int) =~= self.results@);
        count
    }
}

/// A run as its results and the retries that it used up.
#[verifier::ext_equal]
pub struct RunView<R> {
    pub results: Seq<Option<ExecutionResult<R>>>,
    pub retries: int,
}

impl<R> View for ExecutionRun<R> {
    type V = RunView<R>;

    open spec fn view(&self) -> RunView<R> {
        RunView { results: self.results(), retries: self.retries() as int }
    }
}

/// How many results are missing.
pub open spec fn missing<R>(results: Seq<Option<ExecutionResult<R>>>) -> nat
    decreases results.len(),
{
    if results.len() == 0 {
        0
    } else {
        missing(results.drop_last()) + if results.last() is None {
            1nat
        } else {
            0
        }
    }
}

proof fn lemma_nothing_missing<R>(results: Seq<Option<ExecutionResult<R>>>)
    ensures
        missing(results) == 0 <==> forall|i: int|
            0 <= i < results.len() ==> (#[trigger] results[i]) is Some,
    decreases results.len(),
{
    if results.len() > 0 {
        let rest = results.drop_last();
        lemma_nothing_missing(rest);
        if missing(results) == 0 {
            assert forall|i: int| 0 <= i < results.len() implies (#[trigger] results[i]) is Some by {
                if i < rest.len() {
                    assert(rest[i] is Some);
                }
            }
        } else if forall|i: int| 0 <= i < results.len() ==> (#[trigger] results[i]) is Some {
            assert forall|i: int| 0 <= i < rest.len() implies (#[trigger] rest[i]) is Some by {
                assert(results[i] is Some);
            }
            assert(results[results.len() - 1] is Some);
        }
    }
}

/// Whether an operation among some uses an account.
pub open spec fn uses(operations: Seq<Operation>, address: Address) -> bool {
    exists|i: int| 0 <= i < operations.len() && address_of(#[trigger] operations[i]) == address
}

/// The accounts that some operations use.
pub open spec fn addresses_of(operations: Seq<Operation>) -> Set<Address> {
    Set::new(|address: Address| uses(operations, address))
}

/// The transaction of the first log that can be read and uses an account.
pub open spec fn first_user(logs: Seq<Option<LogView>>, address: Address) -> Option<usize>
    decreases logs.len(),
{
    if logs.len() == 0 {
        None
    } else {
        match first_user(logs.drop_last(), address) {
            Some(tx) => Some(tx),
            None => match logs.last() {
                Some(log) => if uses(log.operations, address) {
                    Some(log.tx_index)
                } else {
                    None
                },
                None => None,
            },
        }
    }
}

/// Whether two operations touch a slot that one of them writes.
pub open spec fn collide(a: Operation, b: Operation) -> bool {
    exists|key: StorageKey| #[trigger]
        touches_slot(a, key) && touches_slot(b, key) && (a is Write || b is Write)
}

/// Whether an operation collides with a later one.
pub open spec fn collides_later(operations: Seq<Operation>, i: int) -> bool {
    exists|j: int|
        i < j < operations.len() && collide(operations[i], #[trigger] operations[j])
}

/// Whether an operation is the first that collides with a later one.
pub open spec fn is_first_collision(operations: Seq<Operation>, i: int) -> bool {
    &&& 0 <= i < operations.len()
    &&& collides_later(operations, i)
    &&& forall|k: int| 0 <= k < i ==> !#[trigger] collides_later(operations, k)
}

/// Whether some slot that is written is touched by another operation too.
pub open spec fn collides_with_itself(operations: Seq<Operation>) -> bool {
    exists|i: int| 0 <= i < operations.len() && #[trigger] collides_later(operations, i)
}

/// The first operation that collides with a later one.
pub open spec fn first_collision(operations: Seq<Operation>) -> int {
    choose|i: int| #[trigger] is_first_collision(operations, i)
}

/// A transaction in conflict with itself, about the slot of one of its operations.
pub open spec fn own_conflict(log: LogView, i: int) -> ConflictView {
    ConflictView::OperationLevel {
        tx_index: log.tx_index,
        op_index: i as usize,
        address: address_of(log.operations[i]),
        slot: match log.operations[i] {
            Operation::Read { slot, .. } => Some(slot),
            Operation::Write { slot, .. } => Some(slot),
            _ => None,
        },
    }
}

/// For what a transaction runs again: its conflicts with others, or else its first
/// collision with itself.
pub open spec fn causes(log: LogView, conflicts: Seq<ConflictView>) -> Seq<ConflictView> {
    if conflicts.len() == 0 && collides_with_itself(log.operations) {
        seq![own_conflict(log, first_collision(log.operations))]
    } else {
        conflicts
    }
}

/// How many operations run again: all, if the transaction runs again.
pub open spec fn rerun(log: LogView, conflicts: Seq<ConflictView>) -> nat {
    if causes(log, conflicts).len() > 0 {
        log.operations.len()
    } else {
        0
    }
}

/// Whether a check tells of these conflicts of a transaction: how many they are, how
/// many operations run again, and from where, on a version of the state. There is a plan
/// exactly when something runs again.
pub open spec fn is_check(
    log: LogView,
    conflicts: Seq<ConflictView>,
    version: u64,
    check: TransactionCheck,
) -> bool {
    &&& check.conflicts_resolved == conflicts.len()
    &&& check.operations_reexecuted == rerun(log, conflicts)
    &&& match check.plan {
        Some(plan) => causes(log, conflicts).len() > 0 && plan.wf() && plan@ == plan_for(
            causes(log, conflicts),
            CHECKPOINT_INTERVAL,
        ).on_version(version),
        None => causes(log, conflicts).len() == 0,
    }
}

/// The coordinator of parallel execution.
pub struct ParallelExecutionCoordinator<'a, BLOCK, TX> {
    versioned_db: VersionedStateDB,
    scheduler: TransactionScheduler,
    conflict_detector: ConflictDetector,
    predictor: DependencyPredictor,
    reexecutor: PartialReexecutor,
    operation_logs: Vec<SharedOperationLog<'a, BLOCK, TX>>,
    transactions: Vec<usize>,
    max_parallel_txs: usize,
    batch_timeout: u64,
    max_retries: usize,
}

/// The coordinator as what its parts are, with the logs as far as they can be read.
#[verifier::ext_equal]
pub struct CoordinatorView<BLOCK, TX> {
    pub state: StateView,
    pub scheduler: SchedulerView,
    pub detector: DetectorView,
    pub predictor: PredictorView,
    pub plans: Map<usize, PlanView>,
    pub logs: Seq<Option<LogView>>,
    pub contexts: Seq<Context<BLOCK, TX>>,
    pub transactions: Seq<usize>,
    pub max_parallel_txs: usize,
    pub batch_timeout: u64,
    pub max_retries: usize,
}

impl<BLOCK, TX> CoordinatorView<BLOCK, TX> {
    /// The log of a transaction of the list, if it can be read.
    pub open spec fn log_of(self, tx_idx: usize) -> Option<LogView> {
        if self.transactions.contains(tx_idx) {
            self.logs[self.transactions.index_of(tx_idx)]
        } else {
            None
        }
    }

    /// Whether one of the accounts that a log is predicted to go on with was first
    /// used by a transaction.
    pub open spec fn predicts(self, log: LogView, tx: usize) -> bool {
        exists|address: Address| #[trigger]
            self.predictor.predicted(addresses_of(log.operations)).contains(address)
                && first_user(self.logs, address) == Some(tx)
    }

    /// The transactions that a transaction is predicted to depend on.
    pub open spec fn dependencies_of(self, tx_idx: usize) -> Set<usize> {
        match self.log_of(tx_idx) {
            Some(log) => Set::new(|tx: usize| self.predicts(log, tx)),
            None => Set::empty(),
        }
    }

    /// The detector after it was shown the logs of a batch.
    pub open spec fn detector_after(self, batch: Seq<usize>) -> DetectorView
        decreases batch.len(),
    {
        if batch.len() == 0 {
            self.detector
        } else {
            let before = self.detector_after(batch.drop_last());
            match self.log_of(batch.last()) {
                Some(log) => before.analyzed(log.tx_index, log.operations),
                None => before,
            }
        }
    }

    /// Whether this is what the check of a transaction tells, and what the coordinator
    /// has become by it: the detector keeps its answer, and the plan is kept. A
    /// transaction without a log that can be read has no conflicts.
    pub open spec fn checks_to(
        self,
        tx_idx: usize,
        check: TransactionCheck,
        after: CoordinatorView<BLOCK, TX>,
    ) -> bool {
        match self.log_of(tx_idx) {
            Some(log) => exists|conflicts: Seq<ConflictView>|
                {
                    &&& #[trigger] self.detector.answers(tx_idx, conflicts, after.detector)
                    &&& is_check(log, conflicts, self.state.current, check)
                    &&& after == (CoordinatorView {
                        detector: after.detector,
                        plans: if causes(log, conflicts).len() > 0 {
                            self.plans.insert(
                                log.tx_index,
                                plan_for(causes(log, conflicts), CHECKPOINT_INTERVAL),
                            )
                        } else {
                            self.plans
                        },
                        ..self
                    })
                },
            None => check.conflicts_resolved == 0 && check.operations_reexecuted == 0
                && check.plan is None && after == self,
        }
    }

    /// Whether the logs of a batch that can be read carry the indices of their
    /// transactions.
    pub open spec fn well_named(self, batch: Seq<usize>) -> bool {
        forall|t: usize|
            #![trigger self.log_of(t)]
            batch.contains(t) && self.log_of(t) is Some ==> self.log_of(t)->Some_0.tx_index == t
    }

    /// The coordinator after the detector was shown a batch.
    pub open spec fn shown(self, batch: Seq<usize>) -> CoordinatorView<BLOCK, TX> {
        CoordinatorView { detector: self.detector_after(batch), ..self }
    }

    /// Whether these are the checks of a batch: one for each of its transactions, one
    /// after the other, in between which the coordinator stands as the stages say.
    pub open spec fn are_stages(
        self,
        batch: Seq<usize>,
        checks: Seq<(usize, TransactionCheck)>,
        stages: Seq<CoordinatorView<BLOCK, TX>>,
    ) -> bool {
        &&& checks.len() == batch.len()
        &&& stages.len() == batch.len() + 1
        &&& stages[0] == self
        &&& forall|i: int|
            0 <= i < batch.len() ==> (#[trigger] checks[i]).0 == batch[i] && stages[i].checks_to(
                batch[i],
                checks[i].1,
                stages[i + 1],
            )
    }

    /// The predictor after it learned from the logs of the transactions that had
    /// conflicts.
    pub open spec fn predictor_after<R>(
        self,
        outcomes: Seq<(usize, ExecutionResult<R>)>,
        now: u64,
    ) -> PredictorView
        decreases outcomes.len(),
    {
        if outcomes.len() == 0 {
            self.predictor
        } else {
            let before = self.predictor_after(outcomes.drop_last(), now);
            let (tx_idx, result) = outcomes.last();
            match self.log_of(tx_idx) {
                Some(log) => if result.conflicts_resolved > 0 {
                    before.learned_all(log.operations, result.gas_used, now)
                } else {
                    before
                },
                None => before,
            }
        }
    }

    /// The results after those of a batch came in.
    pub open spec fn results_after<R>(
        self,
        results: Seq<Option<ExecutionResult<R>>>,
        outcomes: Seq<(usize, ExecutionResult<R>)>,
    ) -> Seq<Option<ExecutionResult<R>>>
        decreases outcomes.len(),
    {
        if outcomes.len() == 0 {
            results
        } else {
            self.results_after(results, outcomes.drop_last()).update(
                self.transactions.index_of(outcomes.last().0),
                Some(outcomes.last().1),
            )
        }
    }
}

/// The first operation that collides with a later one.
fn find_collision(operations: &Vec<Operation>) -> (r: Option<usize>)
    ensures
        match r {
            Some(i) => collides_with_itself(operations@) && i == first_collision(operations@)
                && i < operations@.len(),
            None => !collides_with_itself(operations@),
        },
{
    let n: usize = operations.len();
    for i in 0..n
        invariant
            n == operations@.len(),
            forall|k: int| 0 <= k < i ==> !#[trigger] collides_later(operations@, k),
    {
        for j in (i + 1)..n
            invariant
                i < n,
                n == operations@.len(),
                forall|k: int| 0 <= k < i ==> !#[trigger] collides_later(operations@, k),
                forall|l: int|
                    i < l < j ==> !collide(operations@[i as int], #[trigger] operations@[l]),
        {
            if operations_collide(&operations[i], &operations[j]) {
                proof {
                    assert(collide(operations@[i as int], operations@[j as int]));
                    assert(is_first_collision(operations@, i as int));
                    lemma_first_collision(operations@, i as int);
                }
                return Some(i);
            }
        }
        assert(!collides_later(operations@, i as int));
    }
    None
}

proof fn lemma_first_collision(operations: Seq<Operation>, i: int)
    requires
        is_first_collision(operations, i),
    ensures
        first_collision(operations) == i,
{
    let first = first_collision(operations);
    assert(is_first_collision(operations, first));
    if first < i {
        assert(!collides_later(operations, first));
    } else if i < first {
        assert(!collides_later(operations, i));
    }
}

/// The slot that an operation touches, and whether it writes it.
fn slot_access(operation: &Operation) -> (r: Option<(Address, U256, bool)>)
    ensures
        match r {
            Some((address, slot, is_write)) => touches_slot(*operation, (address, slot))
                && is_write == (operation is Write) && forall|key: StorageKey| #[trigger]
                touches_slot(*operation, key) ==> key == (address, slot),
            None => forall|key: StorageKey| !#[trigger] touches_slot(*operation, key),
        },
{
    match operation {
        Operation::Read { address, slot } => Some((*address, *slot, false)),
        Operation::Write { address, slot, .. } => Some((*address, *slot, true)),
        Operation::AccountAccess { .. } => None,
        Operation::CodeAccess { .. } => None,
    }
}

fn operations_collide(a: &Operation, b: &Operation) -> (r: bool)
    ensures
        r == collide(*a, *b),
{
    match (slot_access(a), slot_access(b)) {
        (Some((address, slot, writes)), Some((other, other_slot, other_writes))) => {
            let same = address == other && slot == other_slot && (writes || other_writes);
            assert(same ==> touches_slot(*a, (address, slot)) && touches_slot(*b, (address, slot)));
            same
        },
        _ => false,
    }
}

/// The accounts that some operations use.
fn accessed_addresses(operations: &Vec<Operation>) -> (r: KeySet<Address>)
    ensures
        r.wf(),
        r@ == addresses_of(operations@),
{
    let mut addresses: KeySet<Address> = KeySet::new();
    let n: usize = operations.len();
    assert(addresses_of(operations@.take(0)) =~= Set::<Address>::empty());
    for i in 0..n
        invariant
            n == operations@.len(),
            addresses.wf(),
            addresses@ == addresses_of(operations@.take(i as int)),
    {
        let ghost before = operations@.take(i as int);
        let ghost after = operations@.take(i + 1);
        addresses.insert(operations[i].address());
        proof {
            assert forall|a: Address| uses(after, a) == (uses(before, a) || a == address_of(
                operations@[i as int],
            )) by {
                if uses(before, a) {
                    let k = choose|k: int|
                        0 <= k < before.len() && address_of(#[trigger] before[k]) == a;
                    assert(after[k] == before[k]);
                }
                if a == address_of(operations@[i as int]) {
                    assert(address_of(after[i as int]) == a);
                }
                if uses(after, a) {
                    let k = choose|k: int|
                        0 <= k < after.len() && address_of(#[trigger] after[k]) == a;
                    if k < i {
                        assert(address_of(before[k]) == a);
                    }
                }
            }
            assert(addresses@ =~= addresses_of(after));
        }
    }
    assert(operations@.take(n as int) =~= operations@);
    addresses
}

impl<'a, BLOCK, TX> View for ParallelExecutionCoordinator<'a, BLOCK, TX> {
    type V = CoordinatorView<BLOCK, TX>;

    closed spec fn view(&self) -> CoordinatorView<BLOCK, TX> {
        CoordinatorView {
            state: self.versioned_db@,
            scheduler: self.scheduler@,
            detector: self.conflict_detector@,
            predictor: self.predictor@,
            plans: self.reexecutor.plans(),
            logs: self.operation_logs@.map_values(
                |log: SharedOperationLog<'a, BLOCK, TX>| log.readable(),
            ),
            contexts: self.operation_logs@.map_values(
                |log: SharedOperationLog<'a, BLOCK, TX>| log.log().context(),
            ),
            transactions: self.transactions@,
            max_parallel_txs: self.max_parallel_txs,
            batch_timeout: self.batch_timeout,
            max_retries: self.max_retries,
        }
    }
}

impl<'a, BLOCK, TX> ParallelExecutionCoordinator<'a, BLOCK, TX> {
    pub closed spec fn wf(self) -> bool {
        &&& self.versioned_db.wf()
        &&& self.scheduler.wf()
        &&& self.conflict_detector.wf()
        &&& self.predictor.wf()
        &&& self.reexecutor.wf()
        &&& self.reexecutor.interval() == CHECKPOINT_INTERVAL
        &&& self.operation_logs@.len() == self.transactions@.len()
        &&& self.transactions@.no_duplicates()
        &&& forall|i: int|
            0 <= i < self.operation_logs@.len() ==> (#[trigger] self.operation_logs@[i]).wf()
    }

    /// A coordinator that has seen nothing yet.
    pub fn new(max_parallel_txs: usize, batch_timeout: u64, max_retries: usize) -> (r: Self)
        ensures
            r.wf(),
            r@.state == (StateView { versions: Map::empty(), current: 0, metadata: Map::empty() }),
            r@.scheduler == (SchedulerView {
                pending: Seq::empty(),
                scheduled: Set::empty(),
                links: Map::empty(),
            }),
            r@.detector == no_accesses(),
            r@.predictor == (PredictorView {
                storage: Map::empty(),
                contracts: Map::empty(),
                sequences: Map::empty(),
                recent: Seq::empty(),
                timeout: PATTERN_TIMEOUT,
                max_history: MAX_HISTORY,
            }),
            r@.plans == Map::<usize, PlanView>::empty(),
            r@.logs == Seq::<Option<LogView>>::empty(),
            r@.contexts == Seq::<Context<BLOCK, TX>>::empty(),
            r@.transactions == Seq::<usize>::empty(),
            r@.max_parallel_txs == max_parallel_txs,
            r@.batch_timeout == batch_timeout,
            r@.max_retries == max_retries,
    {
        let r = ParallelExecutionCoordinator {
            versioned_db: VersionedStateDB::new(),
            scheduler: TransactionScheduler::new(),
            conflict_detector: ConflictDetector::new(),
            predictor: DependencyPredictor::new(PATTERN_TIMEOUT, MAX_HISTORY),
            reexecutor: PartialReexecutor::new(CHECKPOINT_INTERVAL),
            operation_logs: Vec::new(),
            transactions: Vec::new(),
            max_parallel_txs,
            batch_timeout,
            max_retries,
        };
        assert(r@.logs =~= Seq::<Option<LogView>>::empty());
        assert(r@.contexts =~= Seq::<Context<BLOCK, TX>>::empty());
        r
    }

    /// How long a batch may take.
    pub fn batch_timeout(&self) -> (r: u64)
        ensures
            r == self@.batch_timeout,
    {
        self.batch_timeout
    }

    /// The version of the state that is current.
    pub fn current_version(&self) -> (r: u64)
        ensures
            r == self@.state.current,
    {
        self.versioned_db.current_version()
    }

    /// The position of a transaction in the list.
    pub fn position_of(&self, tx_idx: usize) -> (r: Option<usize>)
        requires
            self.wf(),
        ensures
            match r {
                Some(i) => i < self@.logs.len() && self@.transactions.contains(tx_idx) && i
                    == self@.transactions.index_of(tx_idx),
                None => !self@.transactions.contains(tx_idx),
            },
    {
        let n: usize = self.transactions.len();
        for i in 0..n
            invariant
                self.wf(),
                n == self.transactions@.len(),
                forall|j: int| 0 <= j < i ==> self.transactions@[j] != tx_idx,
        {
            if self.transactions[i] == tx_idx {
                assert(self.transactions@.contains(tx_idx));
                assert(self.transactions@[self.transactions@.index_of(tx_idx)] == tx_idx);
                return Some(i);
            }
        }
        None
    }

    /// The log of a transaction by its position in the list, to record what it does.
    pub fn operation_log(&mut self, position: usize) -> (r: &mut SharedOperationLog<'a, BLOCK, TX>)
        requires
            old(self).wf(),
            position < old(self)@.logs.len(),
        ensures
            r.wf(),
            r.readable() == old(self)@.logs[position as int],
            r.log().context() == old(self)@.contexts[position as int],
            final(r).wf() ==> final(self).wf(),
            final(self)@ == (CoordinatorView {
                logs: old(self)@.logs.update(position as int, final(r).readable()),
                contexts: old(self)@.contexts.update(position as int, final(r).log().context()),
                ..old(self)@
            }),
    {
        &mut self.operation_logs[position]
    }

    /// Takes up a list of transactions: each gets an empty log, none has a result yet,
    /// and nothing is known of what earlier lists accessed. No index stands twice in the
    /// list.
    pub fn begin_transactions<R>(
        &mut self,
        transactions: Vec<usize>,
        contexts: &'a Vec<Context<BLOCK, TX>>,
    ) -> (r: ExecutionRun<R>)
        requires
            old(self).wf(),
            transactions@.no_duplicates(),
            contexts@.len() == transactions@.len(),
        ensures
            final(self).wf(),
            final(self)@ == (CoordinatorView {
                detector: no_accesses(),
                logs: Seq::new(
                    transactions@.len(),
                    |i: int| Some(empty_log(transactions@[i], 0)),
                ),
                contexts: contexts@,
                transactions: transactions@,
                ..old(self)@
            }),
            r.results() == Seq::new(transactions@.len(), |i: int| None::<ExecutionResult<R>>),
            r.retries() == 0,
    {
        let n: usize = transactions.len();
        let mut logs: Vec<SharedOperationLog<'a, BLOCK, TX>> = Vec::new();
        let mut results: Vec<Option<ExecutionResult<R>>> = Vec::new();
        for i in 0..n
            invariant
                n == transactions@.len(),
                n == contexts@.len(),
                logs@.len() == i,
                results@ == Seq::new(i as nat, |i: int| None::<ExecutionResult<R>>),
                forall|j: int|
                    0 <= j < i ==> (#[trigger] logs@[j]).wf() && logs@[j].readable() == Some(
                        empty_log(transactions@[j], 0),
                    ) && logs@[j].log().context() == contexts@[j],
        {
            logs.push(SharedOperationLog::for_transaction(transactions[i], 0, &contexts[i]));
            results.push(None);
            assert(results@ =~= Seq::new((i + 1) as nat, |i: int| None::<ExecutionResult<R>>));
        }
        self.conflict_detector = ConflictDetector::new();
        self.operation_logs = logs;
        self.transactions = transactions;
        assert(self@.logs =~= Seq::new(
            transactions@.len(),
            |i: int| Some(empty_log(transactions@[i], 0)),
        ));
        assert(self@.contexts =~= contexts@);
        ExecutionRun { results, retry_count: 0 }
    }

    /// Puts a transaction into the schedule, with what it is predicted to depend on.
    pub fn schedule_transaction(
        &mut self,
        tx_idx: usize,
        gas_price: U256,
        estimated_gas: u64,
        priority: u64,
        now: u64,
    )
        requires
            old(self).wf(),
        ensures
            final(self).wf(),
            final(self)@ == (CoordinatorView {
                scheduler: old(self)@.scheduler.added(
                    WaitingView {
                        tx_index: tx_idx,
                        gas_price,
                        estimated_gas,
                        dependencies: old(self)@.dependencies_of(tx_idx),
                        priority,
                        waiting_since: now,
                    },
                ),
                ..old(self)@
            }),
    {
        let predicted_deps = self.predict_dependencies(tx_idx);
        self.scheduler.add_transaction(
            tx_idx,
            gas_price,
            estimated_gas,
            &predicted_deps,
            priority,
            now,
        );
    }

    /// What to do next: hand out another batch, as long as results are missing and
    /// there are retries left; else give out the results, if none is missing.
    pub fn execute_transactions<R>(&mut self, run: ExecutionRun<R>) -> (r: Progress<R>)
        requires
            old(self).wf(),
        ensures
            final(self).wf(),
            match r {
                Progress::Execute { run: next, batch } => missing(run.results()) > 0
                    && run.retries() < old(self)@.max_retries && next == run && final(self)@ == (
                CoordinatorView { scheduler: final(self)@.scheduler, ..old(self)@ }) && (
                    batch@,
                    final(self)@.scheduler,
                ) == old(self)@.scheduler.run(old(self)@.max_parallel_txs as nat),
                Progress::Finished { results } => missing(run.results()) == 0 && results@.len()
                    == run.results().len() && (forall|i: int|
                    0 <= i < results@.len() ==> Some(#[trigger] results@[i]) == run.results()[i])
                    && final(self)@ == old(self)@,
                Progress::Incomplete { run: next } => missing(run.results()) > 0 && run.retries()
                    >= old(self)@.max_retries && next == run && final(self)@ == old(self)@,
            },
    {
        if run.missing() > 0 {
            if run.retry_count < self.max_retries {
                let batch = self.scheduler.get_next_batch(self.max_parallel_txs);
                return Progress::Execute { run, batch };
            }
            return Progress::Incomplete { run };
        }
        proof {
            lemma_nothing_missing(run.results());
        }
        let ghost all = run.results@;
        let mut results: Vec<ExecutionResult<R>> = Vec::new();
        for result in it: run.results
            invariant
                it.seq() == all,
                forall|i: int| 0 <= i < all.len() ==> (#[trigger] all[i]) is Some,
                results@.len() == it.index(),
                forall|i: int| 0 <= i < results@.len() ==> Some(#[trigger] results@[i]) == all[i],
        {
            if let Some(result) = result {
                results.push(result);
            }
        }
        Progress::Finished { results }
    }

    /// Puts a fresh version on top for a transaction that is about to run.
    pub fn execute_transaction(&mut self) -> (r: u64)
        requires
            old(self).wf(),
            old(self)@.state.current < u64::MAX,
        ensures
            final(self).wf(),
            r == old(self)@.state.current + 1,
            final(self)@ == (CoordinatorView { state: old(self)@.state.snapshot(), ..old(self)@ }),
    {
        self.versioned_db.create_snapshot()
    }

    /// Shows the detector what the transactions of a batch did.
    pub fn analyze_batch(&mut self, batch: &Vec<usize>)
        requires
            old(self).wf(),
        ensures
            final(self).wf(),
            final(self)@ == (CoordinatorView {
                detector: old(self)@.detector_after(batch@),
                ..old(self)@
            }),
    {
        let n: usize = batch.len();
        assert(batch@.take(0) =~= Seq::<usize>::empty());
        for i in 0..n
            invariant
                self.wf(),
                n == batch@.len(),
                self@ == (CoordinatorView {
                    detector: old(self)@.detector_after(batch@.take(i as int)),
                    ..old(self)@
                }),
        {
            assert(batch@.take(i + 1).drop_last() =~= batch@.take(i as int));
            assert(batch@.take(i + 1).last() == batch@[i as int]);
            let ghost before = self@;
            if let Some(position) = self.position_of(batch[i]) {
                assert(before.logs[position as int]
                    == self.operation_logs@[position as int].readable());
                if let Ok(op_log) = self.operation_logs[position].read() {
                    self.conflict_detector.analyze_operation_log(op_log);
                }
            }
            assert(old(self)@.log_of(batch@[i as int]) == before.log_of(batch@[i as int]));
            assert(self@ =~= CoordinatorView {
                detector: old(self)@.detector_after(batch@.take(i + 1)),
                ..old(self)@
            });
        }
        assert(batch@.take(n as int) =~= batch@);
    }

    /// Shows the detector what all transactions of a batch did, and only then checks
    /// each of them.
    pub fn check_batch(&mut self, batch: &Vec<usize>) -> (r: Vec<(usize, TransactionCheck)>)
        requires
            old(self).wf(),
        ensures
            final(self).wf(),
            exists|stages: Seq<CoordinatorView<BLOCK, TX>>| #[trigger]
                old(self)@.shown(batch@).are_stages(batch@, r@, stages) && stages.last()
                    == final(self)@,
    {
        self.analyze_batch(batch);
        let ghost shown = self@;
        let ghost mut stages: Seq<CoordinatorView<BLOCK, TX>> = seq![self@];
        let mut checks: Vec<(usize, TransactionCheck)> = Vec::new();
        let n: usize = batch.len();
        for i in 0..n
            invariant
                self.wf(),
                n == batch@.len(),
                stages.len() == i + 1,
                stages[0] == shown,
                stages[i as int] == self@,
                checks@.len() == i,
                forall|j: int|
                    0 <= j < i ==> (#[trigger] checks@[j]).0 == batch@[j] && stages[j].checks_to(
                        batch@[j],
                        checks@[j].1,
                        stages[j + 1],
                    ),
        {
            let ghost before = checks@;
            let ghost earlier = stages;
            let check = self.execute_single_transaction(batch[i]);
            checks.push((batch[i], check));
            proof {
                stages = earlier.push(self@);
                assert forall|j: int| 0 <= j < i + 1 implies (#[trigger] checks@[j]).0 == batch@[j]
                    && stages[j].checks_to(batch@[j], checks@[j].1, stages[j + 1]) by {
                    if j < i {
                        assert(checks@[j] == before[j]);
                        assert(stages[j] == earlier[j]);
                        assert(stages[j + 1] == earlier[j + 1]);
                    }
                }
            }
        }
        assert(shown.are_stages(batch@, checks@, stages));
        assert(shown == old(self)@.shown(batch@));
        checks
    }

    /// Checks a transaction that ran for conflicts, and plans from where it runs again if
    /// it has any or collides with itself, on the current version of the state.
    pub fn execute_single_transaction(&mut self, tx_idx: usize) -> (r: TransactionCheck)
        requires
            old(self).wf(),
        ensures
            final(self).wf(),
            old(self)@.checks_to(tx_idx, r, final(self)@),
    {
        let mut check = TransactionCheck {
            conflicts_resolved: 0,
            operations_reexecuted: 0,
            plan: None,
        };
        if let Some(position) = self.position_of(tx_idx) {
            assert(self@.logs[position as int]
                == self.operation_logs@[position as int].readable());
            if let Ok(op_log) = self.operation_logs[position].read() {
                let mut conflicts = self.conflict_detector.detect_conflicts(tx_idx);
                let ghost found = conflict_views(conflicts@);
                check.conflicts_resolved = conflicts.len();
                if conflicts.len() == 0 {
                    let operations = op_log.operations();
                    if let Some(i) = find_collision(operations) {
                        let slot = match operations[i] {
                            Operation::Read { slot, .. } => Some(slot),
                            Operation::Write { slot, .. } => Some(slot),
                            _ => None,
                        };
                        conflicts.push(
                            ConflictType::OperationLevel {
                                tx_index: op_log.tx_index(),
                                op_index: i,
                                address: operations[i].address(),
                                slot,
                            },
                        );
                    }
                }
                assert(conflict_views(conflicts@) =~= causes(op_log@, found));
                if conflicts.len() > 0 {
                    check.operations_reexecuted = op_log.operations().len();
                    let mut plan = self.reexecutor.prepare_reexecution(op_log, &conflicts);
                    plan.set_version(self.versioned_db.current_version());
                    check.plan = Some(plan);
                }
                proof {
                    let log = op_log@;
                    assert(self@ =~= CoordinatorView {
                        detector: self@.detector,
                        plans: if causes(log, found).len() > 0 {
                            old(self)@.plans.insert(
                                log.tx_index,
                                plan_for(causes(log, found), CHECKPOINT_INTERVAL),
                            )
                        } else {
                            old(self)@.plans
                        },
                        ..old(self)@
                    });
                    assert(is_check(log, found, old(self)@.state.current, check));
                    assert(old(self)@.detector.answers(tx_idx, found, self@.detector));
                }
            }
        }
        check
    }

    /// The next step of running a transaction again by its plan, of which the first
    /// `done` points have run.
    pub fn reexecute(&mut self, tx_idx: usize, plan: &ReexecutionPlan, done: usize) -> (r:
        ReexecutionStep)
        requires
            old(self).wf(),
            old(self)@.state.current < u64::MAX,
        ensures
            final(self).wf(),
            final(self)@ == (CoordinatorView { state: final(self)@.state, ..old(self)@ }),
            (r, final(self)@.state) == step_of(old(self)@.state, tx_idx, plan@, done),
    {
        self.reexecutor.reexecute(&mut self.versioned_db, tx_idx, plan, done)
    }

    /// Takes in what came of a batch. The predictor learns from the transactions
    /// that had conflicts. A batch that brings no new result uses up a retry.
    pub fn settle_batch<R>(
        &mut self,
        run: &mut ExecutionRun<R>,
        outcomes: Vec<(usize, ExecutionResult<R>)>,
        now: u64,
    )
        requires
            old(self).wf(),
            old(run).results().len() == old(self)@.transactions.len(),
            old(run).retries() < usize::MAX,
            forall|i: int|
                0 <= i < outcomes@.len() ==> old(self)@.transactions.contains(
                    (#[trigger] outcomes@[i]).0,
                ),
        ensures
            final(self).wf(),
            final(self)@ == (CoordinatorView {
                predictor: old(self)@.predictor_after(outcomes@, now),
                ..old(self)@
            }),
            final(run).results() == old(self)@.results_after(old(run).results(), outcomes@),
            final(run).retries() == old(run).retries() + if missing(final(run).results())
                == missing(old(run).results()) {
                1int
            } else {
                0
            },
    {
        let before = run.missing();
        let ghost all = outcomes@;
        let ghost c = self@;
        assert(all.take(0) =~= Seq::<(usize, ExecutionResult<R>)>::empty());
        for (tx_idx, result) in it: outcomes
            invariant
                self.wf(),
                it.seq() == all,
                c == old(self)@,
                run.results().len() == c.transactions.len(),
                run.retries() == old(run).retries(),
                old(run).results().len() == c.transactions.len(),
                forall|i: int|
                    0 <= i < all.len() ==> c.transactions.contains((#[trigger] all[i]).0),
                self@ == (CoordinatorView {
                    predictor: c.predictor_after(all.take(it.index()), now),
                    ..c
                }),
                run.results() == c.results_after(old(run).results(), all.take(it.index())),
        {
            let ghost i = it.index();
            proof {
                assert(all[i] == (tx_idx, result));
                assert(all.take(i + 1).drop_last() =~= all.take(i));
                assert(all.take(i + 1).last() == all[i]);
                assert(c.transactions.contains(all[i].0));
            }
            let ghost was = self@;
            if let Some(position) = self.position_of(tx_idx) {
                assert(was.logs[position as int]
                    == self.operation_logs@[position as int].readable());
                assert(c.log_of(tx_idx) == was.log_of(tx_idx));
                if result.conflicts_resolved > 0 {
                    if let Ok(op_log) = self.operation_logs[position].read() {
                        self.predictor.learn_operations(
                            op_log.operations(),
                            result.gas_used,
                            now,
                        );
                    }
                }
                assert(self@ =~= CoordinatorView {
                    predictor: c.predictor_after(all.take(i + 1), now),
                    ..c
                });
                run.results.set(position, Some(result));
            }
        }
        assert(all.take(all.len() as int) =~= all);
        if run.missing() == before {
            run.retry_count = run.retry_count + 1;
        }
    }

    /// How many transactions wait in the schedule.
    pub fn pending_len(&self) -> (r: usize)
        ensures
            r == self@.scheduler.pending.len(),
    {
        self.scheduler.pending_len()
    }

    /// A transaction that waits in the schedule.
    pub fn pending(&self, i: usize) -> (r: &TransactionSchedulingInfo)
        requires
            i < self@.scheduler.pending.len(),
        ensures
            r@ == self@.scheduler.pending[i as int],
    {
        self.scheduler.pending(i)
    }

    /// Gives the transactions that wait new priorities, in the order in which they
    /// came.
    pub fn update_priorities(&mut self, priorities: &Vec<u64>)
        requires
            old(self).wf(),
            priorities@.len() == old(self)@.scheduler.pending.len(),
        ensures
            final(self).wf(),
            final(self)@ == (CoordinatorView {
                scheduler: old(self)@.scheduler.reprioritized(priorities@),
                ..old(self)@
            }),
    {
        self.scheduler.update_priorities(priorities);
    }

    /// The transactions that a transaction is predicted to depend on: the first ones
    /// to use the accounts that it is predicted to go on with.
    pub fn predict_dependencies(&self, tx_idx: usize) -> (r: KeySet<usize>)
        requires
            self.wf(),
        ensures
            r.wf(),
            r@ == self@.dependencies_of(tx_idx),
    {
        let mut deps: KeySet<usize> = KeySet::new();
        let ghost c = self@;
        if let Some(position) = self.position_of(tx_idx) {
            assert(c.logs[position as int] == self.operation_logs@[position as int].readable());
            if let Ok(op_log) = self.operation_logs[position].read() {
                let accessed = accessed_addresses(op_log.operations());
                let predicted = self.predictor.predict_dependencies(&accessed);
                let n = predicted.len();
                for i in 0..n
                    invariant
                        c == self@,
                        predicted.wf(),
                        predicted@ == c.predictor.predicted(addresses_of(op_log@.operations)),
                        n == predicted.order().len(),
                        deps.wf(),
                        forall|tx: usize|
                            deps@.contains(tx) <==> exists|k: int|
                                0 <= k < i && first_user(
                                    c.logs,
                                    #[trigger] predicted.order()[k],
                                ) == Some(tx),
                {
                    let ghost before = deps@;
                    let address = predicted.at(i);
                    if let Some(tx) = self.find_transaction_accessing_address(address) {
                        deps.insert(tx);
                    }
                    assert forall|tx: usize| deps@.contains(tx) implies exists|k: int|
                        0 <= k < i + 1 && first_user(c.logs, #[trigger] predicted.order()[k])
                            == Some(tx) by {
                        if before.contains(tx) {
                            let k = choose|k: int|
                                0 <= k < i && first_user(c.logs, #[trigger] predicted.order()[k])
                                    == Some(tx);
                            assert(first_user(c.logs, predicted.order()[k]) == Some(tx));
                        } else {
                            assert(first_user(c.logs, predicted.order()[i as int]) == Some(tx));
                        }
                    }
                    assert forall|tx: usize|
                        (exists|k: int|
                            0 <= k < i + 1 && first_user(
                                c.logs,
                                #[trigger] predicted.order()[k],
                            ) == Some(tx)) implies deps@.contains(tx) by {
                        let k = choose|k: int|
                            0 <= k < i + 1 && first_user(c.logs, #[trigger] predicted.order()[k])
                                == Some(tx);
                        if k < i {
                            assert(before.contains(tx));
                        }
                    }
                }
                proof {
                    let log = op_log@;
                    assert forall|tx: usize| deps@.contains(tx) == c.predicts(log, tx) by {
                        if deps@.contains(tx) {
                            let k = choose|k: int|
                                0 <= k < n && first_user(c.logs, #[trigger] predicted.order()[k])
                                    == Some(tx);
                            assert(predicted@.contains(predicted.order()[k]));
                        }
                        if c.predicts(log, tx) {
                            let address = choose|address: Address| #[trigger]
                                c.predictor.predicted(addresses_of(log.operations)).contains(
                                    address,
                                ) && first_user(c.logs, address) == Some(tx);
                            let k = predicted.order().index_of(address);
                            assert(first_user(c.logs, predicted.order()[k]) == Some(tx));
                        }
                    }
                    assert(deps@ =~= c.dependencies_of(tx_idx));
                }
            }
        }
        assert(deps@ =~= c.dependencies_of(tx_idx));
        deps
    }

    /// The first transaction of the list whose log uses an account.
    pub fn find_transaction_accessing_address(&self, address: Address) -> (r: Option<usize>)
        ensures
            r == first_user(self@.logs, address),
    {
        let n: usize = self.operation_logs.len();
        for i in 0..n
            invariant
                n == self.operation_logs@.len(),
                first_user(self@.logs.take(i as int), address) is None,
        {
            let ghost logs = self@.logs;
            proof {
                assert(logs.take(i + 1).drop_last() =~= logs.take(i as int));
                assert(logs.take(i + 1).last() == self.operation_logs@[i as int].readable());
            }
            if let Ok(op_log) = self.operation_logs[i].read() {
                let operations = op_log.operations();
                let m: usize = operations.len();
                for k in 0..m
                    invariant
                        m == operations@.len(),
                        i < logs.len(),
                        logs == self@.logs,
                        operations@ == op_log@.operations,
                        logs.take(i + 1).last() == Some(op_log@),
                        first_user(logs.take(i + 1).drop_last(), address) is None,
                        forall|j: int|
                            0 <= j < k ==> address_of(#[trigger] operations@[j]) != address,
                {
                    if operations[k].address() == address {
                        proof {
                            assert(uses(operations@, address));
                            lemma_first_user_stays(logs, i + 1, address);
                        }
                        return Some(op_log.tx_index());
                    }
                }
            }
        }
        assert(self@.logs.take(n as int) =~= self@.logs);
        None
    }
}

proof fn lemma_first_user_stays(logs: Seq<Option<LogView>>, n: int, address: Address)
    requires
        0 <= n <= logs.len(),
        first_user(logs.take(n), address) is Some,
    ensures
        first_user(logs, address) == first_user(logs.take(n), address),
    decreases logs.len(),
{
    if n < logs.len() {
        let rest = logs.drop_last();
        assert(rest.take(n) =~= logs.take(n));
        lemma_first_user_stays(rest, n, address);
    } else {
        assert(logs.take(n) =~= logs);
    }
}

/// As long as no transaction of the list has recorded anything, none is predicted to
/// depend on another.
pub proof fn law_nothing_depends_on_what_has_not_run<BLOCK, TX>(
    c: CoordinatorView<BLOCK, TX>,
    tx_idx: usize,
)
    requires
        forall|i: int|
            0 <= i < c.logs.len() ==> ((#[trigger] c.logs[i]) matches Some(log)
                ==> log.operations.len() == 0),
    ensures
        c.dependencies_of(tx_idx) == Set::<usize>::empty(),
{
    assert forall|address: Address| first_user(c.logs, address) is None by {
        lemma_no_user(c.logs, address);
    }
    assert(c.dependencies_of(tx_idx) =~= Set::<usize>::empty());
}

proof fn lemma_no_user(logs: Seq<Option<LogView>>, address: Address)
    requires
        forall|i: int|
            0 <= i < logs.len() ==> ((#[trigger] logs[i]) matches Some(log)
                ==> log.operations.len() == 0),
    ensures
        first_user(logs, address) is None,
    decreases logs.len(),
{
    if logs.len() > 0 {
        let rest = logs.drop_last();
        assert forall|i: int| 0 <= i < rest.len() implies ((#[trigger] rest[i]) matches Some(log)
            ==> log.operations.len() == 0) by {
            assert(rest[i] == logs[i]);
        }
        lemma_no_user(rest, address);
        assert(logs.last() == logs[logs.len() - 1]);
    }
}

/// What the detector knows of a transaction after it was shown a batch that holds it.
proof fn lemma_detector_after<BLOCK, TX>(
    c: CoordinatorView<BLOCK, TX>,
    batch: Seq<usize>,
    tx: usize,
)
    requires
        batch.contains(tx),
        c.log_of(tx) is Some,
        c.well_named(batch),
    ensures
        c.detector_after(batch).reads.contains_key(tx),
        c.detector_after(batch).writes.contains_key(tx),
        c.detector_after(batch).reads[tx] == reads_of(c.log_of(tx)->Some_0.operations),
        c.detector_after(batch).writes[tx] == writes_of(c.log_of(tx)->Some_0.operations),
    decreases batch.len(),
{
    let rest = batch.drop_last();
    let last = batch.last();
    assert(batch[batch.len() - 1] == last);
    assert(batch.contains(last));
    assert forall|t: usize| rest.contains(t) implies batch.contains(t) by {
        assert(batch[rest.index_of(t)] == t);
    }
    if last != tx {
        let i = batch.index_of(tx);
        assert(rest[i] == tx);
        lemma_detector_after(c, rest, tx);
        assert(c.log_of(last) is Some ==> c.log_of(last)->Some_0.tx_index == last);
    }
}

proof fn lemma_detector_keeps_cache<BLOCK, TX>(c: CoordinatorView<BLOCK, TX>, batch: Seq<usize>)
    ensures
        c.detector_after(batch).cache == c.detector.cache,
    decreases batch.len(),
{
    if batch.len() > 0 {
        lemma_detector_keeps_cache(c, batch.drop_last());
    }
}

proof fn lemma_results_after_len<BLOCK, TX, R>(
    c: CoordinatorView<BLOCK, TX>,
    results: Seq<Option<ExecutionResult<R>>>,
    outcomes: Seq<(usize, ExecutionResult<R>)>,
)
    requires
        results.len() == c.transactions.len(),
        forall|i: int|
            0 <= i < outcomes.len() ==> c.transactions.contains((#[trigger] outcomes[i]).0),
    ensures
        c.results_after(results, outcomes).len() == results.len(),
    decreases outcomes.len(),
{
    if outcomes.len() > 0 {
        assert(outcomes.last() == outcomes[outcomes.len() - 1]);
        assert forall|i: int| 0 <= i < outcomes.drop_last().len() implies c.transactions.contains(
            (#[trigger] outcomes.drop_last()[i]).0,
        ) by {
            assert(outcomes.drop_last()[i] == outcomes[i]);
        }
        lemma_results_after_len(c, results, outcomes.drop_last());
    }
}

proof fn lemma_missing_update<R>(
    results: Seq<Option<ExecutionResult<R>>>,
    i: int,
    result: ExecutionResult<R>,
)
    requires
        0 <= i < results.len(),
    ensures
        missing(results.update(i, Some(result))) + (if results[i] is None {
            1int
        } else {
            0
        }) == missing(results),
    decreases results.len(),
{
    let updated = results.update(i, Some(result));
    if i == results.len() - 1 {
        assert(updated.drop_last() =~= results.drop_last());
    } else {
        lemma_missing_update(results.drop_last(), i, result);
        assert(updated.drop_last() =~= results.drop_last().update(i, Some(result)));
    }
}

/// Taking in outcomes never loses a result: no more results are missing than before,
/// and every transaction with an outcome has a result.
pub proof fn law_results_only_come_in<BLOCK, TX, R>(
    c: CoordinatorView<BLOCK, TX>,
    results: Seq<Option<ExecutionResult<R>>>,
    outcomes: Seq<(usize, ExecutionResult<R>)>,
    tx_idx: usize,
)
    requires
        results.len() == c.transactions.len(),
        forall|i: int|
            0 <= i < outcomes.len() ==> c.transactions.contains((#[trigger] outcomes[i]).0),
        c.transactions.contains(tx_idx),
    ensures
        missing(c.results_after(results, outcomes)) <= missing(results),
        results[c.transactions.index_of(tx_idx)] is Some || (exists|i: int|
            0 <= i < outcomes.len() && (#[trigger] outcomes[i]).0 == tx_idx) ==> c.results_after(
            results,
            outcomes,
        )[c.transactions.index_of(tx_idx)] is Some,
    decreases outcomes.len(),
{
    if outcomes.len() > 0 {
        let rest = outcomes.drop_last();
        assert(outcomes.last() == outcomes[outcomes.len() - 1]);
        assert forall|i: int| 0 <= i < rest.len() implies c.transactions.contains(
            (#[trigger] rest[i]).0,
        ) by {
            assert(rest[i] == outcomes[i]);
        }
        law_results_only_come_in(c, results, rest, tx_idx);
        lemma_results_after_len(c, results, rest);
        let place = c.transactions.index_of(outcomes.last().0);
        lemma_missing_update(c.results_after(results, rest), place, outcomes.last().1);
        if exists|i: int| 0 <= i < outcomes.len() && (#[trigger] outcomes[i]).0 == tx_idx {
            let i = choose|i: int| 0 <= i < outcomes.len() && (#[trigger] outcomes[i]).0 == tx_idx;
            if i < rest.len() {
                assert(rest[i].0 == tx_idx);
            }
        }
    }
}

/// The result of a transaction stands where the transaction stands in the list, if it
/// came in once.
pub proof fn law_a_result_stands_at_its_transaction<BLOCK, TX, R>(
    c: CoordinatorView<BLOCK, TX>,
    results: Seq<Option<ExecutionResult<R>>>,
    outcomes: Seq<(usize, ExecutionResult<R>)>,
    k: int,
)
    requires
        results.len() == c.transactions.len(),
        forall|i: int|
            0 <= i < outcomes.len() ==> c.transactions.contains((#[trigger] outcomes[i]).0),
        forall|i: int, j: int|
            0 <= i < j < outcomes.len() ==> (#[trigger] outcomes[i]).0 != (
            #[trigger] outcomes[j]).0,
        0 <= k < outcomes.len(),
    ensures
        c.results_after(results, outcomes)[c.transactions.index_of(outcomes[k].0)] == Some(
            outcomes[k].1,
        ),
    decreases outcomes.len(),
{
    let rest = outcomes.drop_last();
    let last = outcomes.len() - 1;
    assert forall|i: int| 0 <= i < rest.len() implies c.transactions.contains(
        (#[trigger] rest[i]).0,
    ) by {
        assert(rest[i] == outcomes[i]);
    }
    lemma_results_after_len(c, results, rest);
    assert(c.transactions.contains(outcomes[last].0));
    if k < last {
        assert forall|i: int, j: int| 0 <= i < j < rest.len() implies (#[trigger] rest[i]).0 != (
        #[trigger] rest[j]).0 by {
            assert(outcomes[i].0 != outcomes[j].0);
        }
        law_a_result_stands_at_its_transaction(c, results, rest, k);
        assert(rest[k] == outcomes[k]);
        assert(outcomes[k].0 != outcomes[last].0);
        assert(c.transactions.contains(outcomes[k].0));
        assert(c.transactions[c.transactions.index_of(outcomes[k].0)] == outcomes[k].0);
        assert(c.transactions[c.transactions.index_of(outcomes[last].0)] == outcomes[last].0);
    }
}

/// More results are fewer missing ones.
proof fn lemma_fewer_missing<R>(
    before: Seq<Option<ExecutionResult<R>>>,
    after: Seq<Option<ExecutionResult<R>>>,
)
    requires
        before.len() == after.len(),
        forall|i: int| 0 <= i < before.len() && (#[trigger] before[i]) is Some ==> after[i] is Some,
    ensures
        missing(after) <= missing(before),
        (exists|i: int| 0 <= i < before.len() && (#[trigger] before[i]) is None && after[i] is Some)
            ==> missing(after) < missing(before),
    decreases before.len(),
{
    if before.len() > 0 {
        let last = before.len() - 1;
        let b = before.drop_last();
        let a = after.drop_last();
        assert forall|i: int| 0 <= i < b.len() && (#[trigger] b[i]) is Some implies a[i] is Some by {
            assert(before[i] is Some);
        }
        lemma_fewer_missing(b, a);
        assert(before[last] is Some ==> after[last] is Some);
        if exists|i: int| 0 <= i < before.len() && (#[trigger] before[i]) is None && after[i] is Some {
            let i = choose|i: int|
                0 <= i < before.len() && (#[trigger] before[i]) is None && after[i] is Some;
            if i < last {
                assert(b[i] is None && a[i] is Some);
            }
        }
    }
}

/// A batch that brings the result of a transaction that had none leaves fewer results
/// missing, so it uses up no retry.
pub proof fn law_a_new_result_is_progress<BLOCK, TX, R>(
    c: CoordinatorView<BLOCK, TX>,
    results: Seq<Option<ExecutionResult<R>>>,
    outcomes: Seq<(usize, ExecutionResult<R>)>,
    k: int,
)
    requires
        c.transactions.no_duplicates(),
        results.len() == c.transactions.len(),
        forall|i: int|
            0 <= i < outcomes.len() ==> c.transactions.contains((#[trigger] outcomes[i]).0),
        0 <= k < outcomes.len(),
        results[c.transactions.index_of(outcomes[k].0)] is None,
    ensures
        missing(c.results_after(results, outcomes)) < missing(results),
{
    let after = c.results_after(results, outcomes);
    lemma_results_after_len(c, results, outcomes);
    assert forall|i: int| 0 <= i < results.len() && (#[trigger] results[i]) is Some implies after[i] is Some by {
        let tx = c.transactions[i];
        assert(c.transactions.contains(tx));
        assert(c.transactions[c.transactions.index_of(tx)] == tx);
        law_results_only_come_in(c, results, outcomes, tx);
    }
    law_results_only_come_in(c, results, outcomes, outcomes[k].0);
    let place = c.transactions.index_of(outcomes[k].0);
    assert(c.transactions[place] == outcomes[k].0);
    assert(results[place] is None && after[place] is Some);
    lemma_fewer_missing(results, after);
}

/// Operations that collide have a first one that does, and it touches a slot.
pub proof fn law_a_collision_has_a_first(operations: Seq<Operation>)
    requires
        collides_with_itself(operations),
    ensures
        is_first_collision(operations, first_collision(operations)),
        exists|key: StorageKey|
            touches_slot(operations[first_collision(operations)], key),
{
    let i = choose|i: int| 0 <= i < operations.len() && #[trigger] collides_later(operations, i);
    let first = lemma_collision_below(operations, i);
    lemma_first_collision(operations, first);
    let j = choose|j: int|
        first < j < operations.len() && collide(operations[first], #[trigger] operations[j]);
    let key = choose|key: StorageKey| #[trigger]
        touches_slot(operations[first], key) && touches_slot(operations[j], key) && (
        operations[first] is Write || operations[j] is Write);
    assert(touches_slot(operations[first], key));
}

proof fn lemma_collision_below(operations: Seq<Operation>, i: int) -> (r: int)
    requires
        0 <= i < operations.len(),
        collides_later(operations, i),
    ensures
        is_first_collision(operations, r),
    decreases i,
{
    if exists|k: int| 0 <= k < i && #[trigger] collides_later(operations, k) {
        let k = choose|k: int| 0 <= k < i && #[trigger] collides_later(operations, k);
        lemma_collision_below(operations, k)
    } else {
        i
    }
}

/// There is a plan exactly when a transaction has conflicts or collides with itself, and
/// it has a point to run from. Operations run again exactly when there is a plan and the
/// transaction did anything.
pub proof fn law_what_runs_again_has_a_plan(
    log: LogView,
    conflicts: Seq<ConflictView>,
    version: u64,
    check: TransactionCheck,
)
    requires
        is_check(log, conflicts, version, check),
    ensures
        check.plan is Some <==> conflicts.len() > 0 || collides_with_itself(log.operations),
        check.operations_reexecuted > 0 <==> check.plan is Some && log.operations.len() > 0,
        check.plan matches Some(plan) ==> plan@.points.len() > 0,
{
}

/// What checks leave as it was, and whose answers the detector keeps after them.
proof fn lemma_stages<BLOCK, TX>(
    c: CoordinatorView<BLOCK, TX>,
    batch: Seq<usize>,
    checks: Seq<(usize, TransactionCheck)>,
    stages: Seq<CoordinatorView<BLOCK, TX>>,
    k: int,
)
    requires
        c.are_stages(batch, checks, stages),
        0 <= k <= batch.len(),
    ensures
        stages[k] == (CoordinatorView {
            detector: stages[k].detector,
            plans: stages[k].plans,
            ..c
        }),
        stages[k].detector.reads == c.detector.reads,
        stages[k].detector.writes == c.detector.writes,
        stages[k].detector.history == c.detector.history,
        forall|tx: usize| #[trigger]
            stages[k].detector.cache.contains_key((tx, 0)) ==> c.detector.cache.contains_key(
                (tx, 0),
            ) || batch.take(k).contains(tx),
    decreases k,
{
    if k > 0 {
        let i = k - 1;
        lemma_stages(c, batch, checks, stages, i);
        assert(checks[i].0 == batch[i]);
        assert(stages[i].checks_to(batch[i], checks[i].1, stages[i + 1]));
        assert(batch.take(k) =~= batch.take(i).push(batch[i]));
        assert forall|tx: usize| #[trigger]
            stages[k].detector.cache.contains_key((tx, 0)) implies c.detector.cache.contains_key(
            (tx, 0),
        ) || batch.take(k).contains(tx) by {
            if batch.take(i).contains(tx) {
                let w = batch.take(i).index_of(tx);
                assert(batch.take(k)[w] == tx);
            }
            if tx == batch[i] {
                assert(batch.take(k)[i] == tx);
            }
        }
    }
}

/// Every check of a batch tells of the conflicts with all that the whole batch did,
/// whatever the order in which its transactions stand and are checked, if they were not
/// asked for before.
pub proof fn law_checks_see_the_whole_batch<BLOCK, TX>(
    c: CoordinatorView<BLOCK, TX>,
    batch: Seq<usize>,
    checks: Seq<(usize, TransactionCheck)>,
    stages: Seq<CoordinatorView<BLOCK, TX>>,
    k: int,
)
    requires
        c.shown(batch).are_stages(batch, checks, stages),
        batch.no_duplicates(),
        0 <= k < batch.len(),
        c.log_of(batch[k]) is Some,
        !c.detector.cache.contains_key((batch[k], 0)),
    ensures
        checks[k].0 == batch[k],
        exists|conflicts: Seq<ConflictView>| #[trigger]
            c.detector_after(batch).detected(batch[k], conflicts) && is_check(
                c.log_of(batch[k])->Some_0,
                conflicts,
                c.state.current,
                checks[k].1,
            ),
{
    let shown = c.shown(batch);
    let tx = batch[k];
    lemma_stages(shown, batch, checks, stages, k);
    lemma_detector_keeps_cache(c, batch);
    assert(!batch.take(k).contains(tx)) by {
        if batch.take(k).contains(tx) {
            let w = batch.take(k).index_of(tx);
            assert(batch[w] == tx);
        }
    }
    assert(checks[k].0 == tx);
    let stage = stages[k];
    assert(stage.checks_to(tx, checks[k].1, stages[k + 1]));
    assert(stage.log_of(tx) == c.log_of(tx));
    let log = c.log_of(tx)->Some_0;
    let conflicts = choose|conflicts: Seq<ConflictView>|
        #[trigger] stage.detector.answers(tx, conflicts, stages[k + 1].detector) && is_check(
            log,
            conflicts,
            stage.state.current,
            checks[k].1,
        );
    assert(stage.detector.detected(tx, conflicts));
    let d = c.detector_after(batch);
    assert forall|conflict: ConflictView|
        #![trigger conflicts.contains(conflict)]
        conflicts.contains(conflict) <==> d.is_transaction_conflict(tx, conflict)
            || d.is_operation_conflict(tx, conflict) by {
        assert(stage.detector.is_transaction_conflict(tx, conflict)
            == d.is_transaction_conflict(tx, conflict));
        assert(stage.detector.is_operation_conflict(tx, conflict) == d.is_operation_conflict(
            tx,
            conflict,
        ));
    }
    assert(d.detected(tx, conflicts));
}

/// One batch of a list: the coordinator when the batch has run, the batch, its checks, and
/// the coordinator between them.
pub struct BatchStep<BLOCK, TX> {
    pub c: CoordinatorView<BLOCK, TX>,
    pub batch: Seq<usize>,
    pub checks: Seq<(usize, TransactionCheck)>,
    pub stages: Seq<CoordinatorView<BLOCK, TX>>,
}

impl<BLOCK, TX> BatchStep<BLOCK, TX> {
    /// Whether the batch was checked as `check_batch` does.
    pub open spec fn is_checked(self) -> bool {
        &&& self.batch.no_duplicates()
        &&& self.c.well_named(self.batch)
        &&& self.c.shown(self.batch).are_stages(self.batch, self.checks, self.stages)
    }
}

/// Whether these are batches of one list in their order: the first begins with a detector
/// that knows nothing, each other one with what the one before it left, and no transaction
/// is in two of them. What else happens in between is left open.
pub open spec fn are_batches<BLOCK, TX>(steps: Seq<BatchStep<BLOCK, TX>>) -> bool {
    &&& steps.len() > 0 ==> steps[0].c.detector == no_accesses()
    &&& forall|i: int| 0 <= i < steps.len() ==> (#[trigger] steps[i]).is_checked()
    &&& forall|i: int|
        #![trigger steps[i]]
        0 <= i < steps.len() - 1 ==> steps[i + 1].c.detector == steps[i].stages.last().detector
    &&& forall|i: int, j: int, tx: usize|
        0 <= i < j < steps.len() && #[trigger] steps[i].batch.contains(tx)
            ==> !#[trigger] steps[j].batch.contains(tx)
}

/// What the detector knows of a transaction that is not in a batch stays as it is when the
/// batch is shown.
proof fn lemma_detector_after_others<BLOCK, TX>(
    c: CoordinatorView<BLOCK, TX>,
    batch: Seq<usize>,
    tx: usize,
)
    requires
        !batch.contains(tx),
        c.well_named(batch),
    ensures
        c.detector_after(batch).writes.contains_key(tx) == c.detector.writes.contains_key(tx),
        c.detector_after(batch).writes[tx] == c.detector.writes[tx],
    decreases batch.len(),
{
    if batch.len() > 0 {
        let rest = batch.drop_last();
        let last = batch.last();
        assert(batch[batch.len() - 1] == last);
        assert(batch.contains(last));
        assert forall|t: usize| rest.contains(t) implies batch.contains(t) by {
            assert(batch[rest.index_of(t)] == t);
        }
        lemma_detector_after_others(c, rest, tx);
        assert(c.log_of(last) is Some ==> c.log_of(last)->Some_0.tx_index == last);
    }
}

/// No batch before that of a transaction asks for its conflicts.
proof fn lemma_not_asked_before<BLOCK, TX>(
    steps: Seq<BatchStep<BLOCK, TX>>,
    n: int,
    i: int,
    tx: usize,
)
    requires
        are_batches(steps),
        0 <= i <= n < steps.len(),
        steps[n].batch.contains(tx),
    ensures
        !steps[i].c.detector.cache.contains_key((tx, 0)),
    decreases i,
{
    if i > 0 {
        let before = steps[i - 1];
        lemma_not_asked_before(steps, n, i - 1, tx);
        assert(before.is_checked());
        assert(!before.batch.contains(tx)) by {
            if before.batch.contains(tx) {
                assert(!steps[n].batch.contains(tx));
            }
        }
        let k = before.batch.len() as int;
        lemma_stages(before.c.shown(before.batch), before.batch, before.checks, before.stages, k);
        lemma_detector_keeps_cache(before.c, before.batch);
        assert(before.batch.take(k) =~= before.batch);
        assert(before.stages.last() == before.stages[k]);
    }
}

/// What a transaction wrote stays known through all later batches.
proof fn lemma_writes_stay_known<BLOCK, TX>(
    steps: Seq<BatchStep<BLOCK, TX>>,
    m: int,
    n: int,
    earlier: usize,
)
    requires
        are_batches(steps),
        0 <= m <= n < steps.len(),
        steps[m].batch.contains(earlier),
        steps[m].c.log_of(earlier) is Some,
    ensures
        steps[n].c.detector_after(steps[n].batch).writes.contains_key(earlier),
        steps[n].c.detector_after(steps[n].batch).writes[earlier] == writes_of(
            steps[m].c.log_of(earlier)->Some_0.operations,
        ),
    decreases n,
{
    assert(steps[n].is_checked());
    if m == n {
        lemma_detector_after(steps[n].c, steps[n].batch, earlier);
    } else {
        let before = steps[n - 1];
        lemma_writes_stay_known(steps, m, n - 1, earlier);
        assert(before.is_checked());
        let k = before.batch.len() as int;
        lemma_stages(before.c.shown(before.batch), before.batch, before.checks, before.stages, k);
        assert(before.stages.last() == before.stages[k]);
        assert(steps[n].c.detector == before.stages.last().detector);
        assert(!steps[n].batch.contains(earlier));
        lemma_detector_after_others(steps[n].c, steps[n].batch, earlier);
    }
}

/// Where a transaction of a list wrote a slot, and another one with a larger index in the
/// same or a later batch touched it, the check of the other finds it: it has conflicts, all
/// its operations run again, and there is a plan for that.
pub proof fn law_a_checked_batch_finds_shared_slots<BLOCK, TX>(
    steps: Seq<BatchStep<BLOCK, TX>>,
    m: int,
    n: int,
    earlier: usize,
    k: int,
    key: StorageKey,
)
    requires
        are_batches(steps),
        0 <= m <= n < steps.len(),
        0 <= k < steps[n].batch.len(),
        steps[m].batch.contains(earlier),
        earlier < steps[n].batch[k],
        steps[m].c.log_of(earlier) is Some,
        steps[n].c.log_of(steps[n].batch[k]) is Some,
        writes_of(steps[m].c.log_of(earlier)->Some_0.operations).contains(key),
        reads_of(steps[n].c.log_of(steps[n].batch[k])->Some_0.operations).contains(key)
            || writes_of(steps[n].c.log_of(steps[n].batch[k])->Some_0.operations).contains(key),
    ensures
        steps[n].checks[k].0 == steps[n].batch[k],
        steps[n].checks[k].1.conflicts_resolved > 0,
        steps[n].checks[k].1.operations_reexecuted == steps[n].c.log_of(
            steps[n].batch[k],
        )->Some_0.operations.len(),
        steps[n].checks[k].1.plan is Some,
{
    let c = steps[n].c;
    let batch = steps[n].batch;
    let checks = steps[n].checks;
    let tx = batch[k];
    assert(steps[n].is_checked());
    assert(batch.contains(tx));
    lemma_not_asked_before(steps, n, n, tx);
    law_checks_see_the_whole_batch(c, batch, checks, steps[n].stages, k);
    let d = c.detector_after(batch);
    let conflicts = choose|conflicts: Seq<ConflictView>| #[trigger]
        d.detected(tx, conflicts) && is_check(
            c.log_of(tx)->Some_0,
            conflicts,
            c.state.current,
            checks[k].1,
        );
    lemma_detector_after(c, batch, tx);
    lemma_writes_stay_known(steps, m, n, earlier);
    let addresses = shared_addresses(d.reads[tx], d.writes[tx], d.writes[earlier]);
    assert(d.reads[tx].contains((key.0, key.1)) || d.writes[tx].contains((key.0, key.1)));
    assert(addresses.contains(key.0));
    let conflict = ConflictView::TransactionLevel { tx1_index: tx, tx2_index: earlier, addresses };
    assert(d.is_transaction_conflict(tx, conflict));
    assert(conflicts.contains(conflict));
}

/// What the detector knows after it was shown a batch of which it knew nothing: what it
/// knew before, and what the transactions of the batch wrote.
proof fn lemma_shown_batch_is_known<BLOCK, TX>(
    c: CoordinatorView<BLOCK, TX>,
    batch: Seq<usize>,
)
    requires
        history_is_backed(c.detector),
        batch.no_duplicates(),
        c.well_named(batch),
        forall|t: usize| #[trigger] batch.contains(t) ==> !c.detector.writes.contains_key(t),
    ensures
        history_is_backed(c.detector_after(batch)),
        forall|t: usize| #[trigger]
            c.detector_after(batch).writes.contains_key(t) ==> if batch.contains(t) {
                c.log_of(t) is Some && c.detector_after(batch).writes[t] == writes_of(
                    c.log_of(t)->Some_0.operations,
                )
            } else {
                c.detector.writes.contains_key(t) && c.detector_after(batch).writes[t]
                    == c.detector.writes[t]
            },
    decreases batch.len(),
{
    if batch.len() > 0 {
        let rest = batch.drop_last();
        let last = batch.last();
        assert(batch[batch.len() - 1] == last);
        assert(batch.contains(last));
        assert forall|t: usize| #[trigger] rest.contains(t) implies batch.contains(t) && t != last by {
            assert(batch[rest.index_of(t)] == t);
        }
        assert forall|t: usize| batch.contains(t) && t != last implies rest.contains(t) by {
            assert(rest[batch.index_of(t)] == t);
        }
        lemma_shown_batch_is_known(c, rest);
        let before = c.detector_after(rest);
        assert(!rest.contains(last));
        assert(!before.writes.contains_key(last));
        if let Some(log) = c.log_of(last) {
            assert(log.tx_index == last);
            law_a_first_log_keeps_the_history_backed(before, last, log.operations);
        }
    }
}

/// Whether a transaction of one of the first batches wrote these slots.
pub open spec fn wrote_before<BLOCK, TX>(
    steps: Seq<BatchStep<BLOCK, TX>>,
    n: int,
    tx: usize,
    slots: Set<StorageKey>,
) -> bool {
    exists|m: int|
        0 <= m <= n && (#[trigger] steps[m]).batch.contains(tx) && steps[m].c.log_of(tx) is Some
            && slots == writes_of(steps[m].c.log_of(tx)->Some_0.operations)
}

/// All that the detector knows at a batch was written in that batch or an earlier one of
/// the list.
proof fn lemma_only_the_list_is_known<BLOCK, TX>(steps: Seq<BatchStep<BLOCK, TX>>, n: int)
    requires
        are_batches(steps),
        0 <= n < steps.len(),
    ensures
        history_is_backed(steps[n].c.detector_after(steps[n].batch)),
        forall|t: usize| #[trigger]
            steps[n].c.detector_after(steps[n].batch).writes.contains_key(t) ==> wrote_before(
                steps,
                n,
                t,
                steps[n].c.detector_after(steps[n].batch).writes[t],
            ),
    decreases n,
{
    let step = steps[n];
    assert(step.is_checked());
    if n > 0 {
        let before = steps[n - 1];
        lemma_only_the_list_is_known(steps, n - 1);
        assert(before.is_checked());
        let k = before.batch.len() as int;
        lemma_stages(before.c.shown(before.batch), before.batch, before.checks, before.stages, k);
        assert(before.stages.last() == before.stages[k]);
        assert(step.c.detector == before.stages.last().detector);
        let d = before.c.detector_after(before.batch);
        assert(step.c.detector.writes == d.writes);
        assert(step.c.detector.history == d.history);
        assert forall|t: usize| #[trigger] step.batch.contains(t) implies !step.c.detector.writes.contains_key(
            t,
        ) by {
            if d.writes.contains_key(t) {
                let m = choose|m: int|
                    0 <= m <= n - 1 && (#[trigger] steps[m]).batch.contains(t)
                        && steps[m].c.log_of(t) is Some && d.writes[t] == writes_of(
                        steps[m].c.log_of(t)->Some_0.operations,
                    );
                assert(steps[m].batch.contains(t));
            }
        }
    }
    lemma_shown_batch_is_known(step.c, step.batch);
    let after = step.c.detector_after(step.batch);
    assert forall|t: usize| #[trigger] after.writes.contains_key(t) implies wrote_before(
        steps,
        n,
        t,
        after.writes[t],
    ) by {
        if step.batch.contains(t) {
            assert(steps[n].batch.contains(t));
        } else {
            let d = steps[n - 1].c.detector_after(steps[n - 1].batch);
            assert(d.writes.contains_key(t));
            let m = choose|m: int|
                0 <= m <= n - 1 && (#[trigger] steps[m]).batch.contains(t) && steps[m].c.log_of(
                    t,
                ) is Some && d.writes[t] == writes_of(steps[m].c.log_of(t)->Some_0.operations);
            assert(steps[m].batch.contains(t));
        }
    }
}

/// A transaction of a list that touched no slot which one with a smaller index wrote, in
/// its own or an earlier batch of the list, has no conflicts. What earlier lists did does
/// not count.
pub proof fn law_nothing_shared_in_a_list_no_conflicts<BLOCK, TX>(
    steps: Seq<BatchStep<BLOCK, TX>>,
    n: int,
    k: int,
)
    requires
        are_batches(steps),
        0 <= n < steps.len(),
        0 <= k < steps[n].batch.len(),
        steps[n].c.log_of(steps[n].batch[k]) matches Some(log) ==> forall|m: int, earlier: usize|
            0 <= m <= n && earlier < steps[n].batch[k] && #[trigger] steps[m].batch.contains(
                earlier,
            ) && steps[m].c.log_of(earlier) is Some ==> reads_of(log.operations).union(
                writes_of(log.operations),
            ).disjoint(writes_of(steps[m].c.log_of(earlier)->Some_0.operations)),
    ensures
        steps[n].checks[k].1.conflicts_resolved == 0,
{
    let c = steps[n].c;
    let batch = steps[n].batch;
    let checks = steps[n].checks;
    let tx = batch[k];
    assert(steps[n].is_checked());
    assert(batch.contains(tx));
    if let Some(log) = c.log_of(tx) {
        lemma_not_asked_before(steps, n, n, tx);
        law_checks_see_the_whole_batch(c, batch, checks, steps[n].stages, k);
        let d = c.detector_after(batch);
        let conflicts = choose|conflicts: Seq<ConflictView>| #[trigger]
            d.detected(tx, conflicts) && is_check(log, conflicts, c.state.current, checks[k].1);
        lemma_detector_after(c, batch, tx);
        lemma_only_the_list_is_known(steps, n);
        let touched = reads_of(log.operations).union(writes_of(log.operations));
        assert forall|earlier: usize| earlier < tx && #[trigger] d.writes.contains_key(earlier)
            implies d.reads[tx].disjoint(d.writes[earlier]) && d.writes[tx].disjoint(
            d.writes[earlier],
        ) by {
            assert(wrote_before(steps, n, earlier, d.writes[earlier]));
            let m = choose|m: int|
                0 <= m <= n && (#[trigger] steps[m]).batch.contains(earlier) && steps[m].c.log_of(
                    earlier,
                ) is Some && d.writes[earlier] == writes_of(
                    steps[m].c.log_of(earlier)->Some_0.operations,
                );
            assert(steps[m].batch.contains(earlier));
            assert(touched.disjoint(d.writes[earlier]));
            assert forall|key: StorageKey| d.reads[tx].contains(key) || d.writes[tx].contains(
                key,
            ) implies !d.writes[earlier].contains(key) by {
                assert(touched.contains(key));
            }
        }
        law_nothing_shared_no_conflicts(d, tx, conflicts);
    } else {
        let shown = c.shown(batch);
        lemma_stages(shown, batch, checks, steps[n].stages, k);
        assert(checks[k].0 == tx);
        assert(steps[n].stages[k].log_of(tx) == c.log_of(tx));
    }
}

/// In a well-formed coordinator every transaction of the list stands there once and has a
/// log, and the state and every log that can be read are consistent.
pub proof fn law_wf_is_consistent<'a, BLOCK, TX>(
    coordinator: ParallelExecutionCoordinator<'a, BLOCK, TX>,
)
    requires
        coordinator.wf(),
    ensures
        coordinator@.state.consistent(),
        coordinator@.transactions.no_duplicates(),
        coordinator@.logs.len() == coordinator@.transactions.len(),
        coordinator@.contexts.len() == coordinator@.transactions.len(),
        coordinator@.predictor.recent.len() <= coordinator@.predictor.max_history,
        forall|i: int|
            0 <= i < coordinator@.logs.len() ==> ((#[trigger] coordinator@.logs[i]) matches Some(
                log,
            ) ==> log.consistent()),
{
    crate::db::versioned::law_wf_is_consistent(coordinator.versioned_db);
    crate::parallel::predictor::law_wf_is_bounded(coordinator.predictor);
    assert forall|i: int| 0 <= i < coordinator@.logs.len() implies ((
    #[trigger] coordinator@.logs[i]) matches Some(log) ==> log.consistent()) by {
        crate::parallel::operation_logs::law_shared_log_is_consistent(
            coordinator.operation_logs@[i],
        );
    }
}

impl<BLOCK, TX> CoordinatorView<BLOCK, TX> {
    /// Whether the schedule and the results of a list are in step: those that wait are
    /// different transactions of the list without a result, every transaction without a
    /// result waits, and so there are as many of the one as of the other.
    pub open spec fn in_step<R>(self, run: RunView<R>) -> bool {
        &&& self.transactions.no_duplicates()
        &&& run.results.len() == self.transactions.len()
        &&& self.scheduler.distinct()
        &&& forall|tx: usize| #[trigger]
            self.scheduler.waits(tx) <==> self.transactions.contains(tx)
                && run.results[self.transactions.index_of(tx)] is None
        &&& self.scheduler.pending.len() == missing(run.results)
    }

    /// Whether one round of a run leads from here to there: the next batch is handed out,
    /// every transaction of it comes back with an outcome, the outcomes are taken in, and
    /// those that still wait get any new priorities. What else the coordinator has
    /// learned by it is left open.
    pub open spec fn round_to<R>(
        self,
        run: RunView<R>,
        outcomes: Seq<(usize, ExecutionResult<R>)>,
        priorities: Seq<u64>,
        after: CoordinatorView<BLOCK, TX>,
        next: RunView<R>,
    ) -> bool {
        let (batch, scheduler) = self.scheduler.run(self.max_parallel_txs as nat);
        &&& outcomes.len() == batch.len()
        &&& forall|i: int| 0 <= i < outcomes.len() ==> (#[trigger] outcomes[i]).0 == batch[i]
        &&& priorities.len() == scheduler.pending.len()
        &&& after.scheduler == scheduler.reprioritized(priorities)
        &&& after.transactions == self.transactions
        &&& after.max_parallel_txs == self.max_parallel_txs
        &&& after.max_retries == self.max_retries
        &&& next.results == self.results_after(run.results, outcomes)
        &&& next.retries == run.retries + if missing(next.results) == missing(run.results) {
            1int
        } else {
            0
        }
    }

    /// Whether some round leads from here to there.
    pub open spec fn leads_to<R>(
        self,
        run: RunView<R>,
        after: CoordinatorView<BLOCK, TX>,
        next: RunView<R>,
    ) -> bool {
        exists|outcomes: Seq<(usize, ExecutionResult<R>)>, priorities: Seq<u64>| #[trigger]
            self.round_to(run, outcomes, priorities, after, next)
    }
}

/// Results of transactions that no outcome is about stay as they are.
proof fn lemma_other_results_stay<BLOCK, TX, R>(
    c: CoordinatorView<BLOCK, TX>,
    results: Seq<Option<ExecutionResult<R>>>,
    outcomes: Seq<(usize, ExecutionResult<R>)>,
    tx: usize,
)
    requires
        results.len() == c.transactions.len(),
        forall|i: int|
            0 <= i < outcomes.len() ==> c.transactions.contains((#[trigger] outcomes[i]).0)
                && outcomes[i].0 != tx,
        c.transactions.contains(tx),
    ensures
        c.results_after(results, outcomes)[c.transactions.index_of(tx)]
            == results[c.transactions.index_of(tx)],
    decreases outcomes.len(),
{
    if outcomes.len() > 0 {
        let rest = outcomes.drop_last();
        let last = outcomes.len() - 1;
        assert forall|i: int| 0 <= i < rest.len() implies c.transactions.contains(
            (#[trigger] rest[i]).0,
        ) && rest[i].0 != tx by {
            assert(rest[i] == outcomes[i]);
        }
        lemma_other_results_stay(c, results, rest, tx);
        lemma_results_after_len(c, results, rest);
        assert(outcomes[last].0 != tx);
        assert(c.transactions[c.transactions.index_of(tx)] == tx);
        assert(c.transactions[c.transactions.index_of(outcomes[last].0)] == outcomes[last].0);
    }
}

/// Outcomes of different transactions without a result leave so many fewer missing.
proof fn lemma_so_many_fewer<BLOCK, TX, R>(
    c: CoordinatorView<BLOCK, TX>,
    results: Seq<Option<ExecutionResult<R>>>,
    outcomes: Seq<(usize, ExecutionResult<R>)>,
)
    requires
        results.len() == c.transactions.len(),
        forall|i: int|
            0 <= i < outcomes.len() ==> c.transactions.contains((#[trigger] outcomes[i]).0)
                && results[c.transactions.index_of(outcomes[i].0)] is None,
        forall|i: int, j: int|
            0 <= i < j < outcomes.len() ==> (#[trigger] outcomes[i]).0 != (
            #[trigger] outcomes[j]).0,
    ensures
        missing(c.results_after(results, outcomes)) + outcomes.len() == missing(results),
    decreases outcomes.len(),
{
    if outcomes.len() > 0 {
        let rest = outcomes.drop_last();
        let last = outcomes.len() - 1;
        assert forall|i: int| 0 <= i < rest.len() implies c.transactions.contains(
            (#[trigger] rest[i]).0,
        ) && results[c.transactions.index_of(rest[i].0)] is None && rest[i].0
            != outcomes[last].0 by {
            assert(rest[i] == outcomes[i]);
            assert(outcomes[i].0 != outcomes[last].0);
        }
        assert forall|i: int, j: int| 0 <= i < j < rest.len() implies (#[trigger] rest[i]).0 != (
        #[trigger] rest[j]).0 by {
            assert(outcomes[i].0 != outcomes[j].0);
        }
        lemma_so_many_fewer(c, results, rest);
        lemma_results_after_len(c, results, rest);
        assert(c.transactions.contains(outcomes[last].0));
        lemma_other_results_stay(c, results, rest, outcomes[last].0);
        let place = c.transactions.index_of(outcomes[last].0);
        lemma_missing_update(c.results_after(results, rest), place, outcomes[last].1);
    }
}

/// A list that was taken up with an empty schedule, and whose transactions were all put
/// into it, is in step.
pub proof fn law_a_scheduled_list_is_in_step<BLOCK, TX, R>(
    c: CoordinatorView<BLOCK, TX>,
    run: RunView<R>,
)
    requires
        c.transactions.no_duplicates(),
        run.results == Seq::new(c.transactions.len(), |i: int| None::<ExecutionResult<R>>),
        c.scheduler.pending.len() == c.transactions.len(),
        forall|i: int|
            0 <= i < c.transactions.len() ==> (#[trigger] c.scheduler.pending[i]).tx_index
                == c.transactions[i],
    ensures
        c.in_step(run),
{
    lemma_all_missing(run.results);
    assert forall|i: int, j: int| 0 <= i < j < c.scheduler.pending.len() implies (
    #[trigger] c.scheduler.pending[i]).tx_index != (#[trigger] c.scheduler.pending[j]).tx_index by {
        assert(c.transactions[i] != c.transactions[j]);
    }
    assert forall|tx: usize| #[trigger] c.scheduler.waits(tx) <==> c.transactions.contains(tx)
        && run.results[c.transactions.index_of(tx)] is None by {
        if c.scheduler.waits(tx) {
            let i = choose|i: int|
                0 <= i < c.scheduler.pending.len() && (#[trigger] c.scheduler.pending[i]).tx_index
                    == tx;
            assert(c.transactions[i] == tx);
        }
        if c.transactions.contains(tx) {
            let i = c.transactions.index_of(tx);
            assert(c.scheduler.pending[i].tx_index == tx);
        }
    }
}

proof fn lemma_all_missing<R>(results: Seq<Option<ExecutionResult<R>>>)
    requires
        forall|i: int| 0 <= i < results.len() ==> (#[trigger] results[i]) is None,
    ensures
        missing(results) == results.len(),
    decreases results.len(),
{
    if results.len() > 0 {
        assert(results.last() == results[results.len() - 1]);
        lemma_all_missing(results.drop_last());
    }
}

/// A round of a list in step keeps it in step and leaves as many fewer results missing as
/// its batch has transactions. Where some waiting transaction can run, and batches may
/// hold any, that is at least one fewer, and no retry is used up.
pub proof fn law_a_round_makes_progress<BLOCK, TX, R>(
    c: CoordinatorView<BLOCK, TX>,
    run: RunView<R>,
    outcomes: Seq<(usize, ExecutionResult<R>)>,
    priorities: Seq<u64>,
    after: CoordinatorView<BLOCK, TX>,
    next: RunView<R>,
)
    requires
        c.in_step(run),
        c.round_to(run, outcomes, priorities, after, next),
    ensures
        after.in_step(next),
        missing(next.results) + outcomes.len() == missing(run.results),
        c.max_parallel_txs > 0 && (exists|i: int|
            0 <= i < c.scheduler.pending.len() && #[trigger] c.scheduler.executable(i))
            ==> outcomes.len() > 0 && next.retries == run.retries,
{
    let count = c.max_parallel_txs as nat;
    let (batch, s) = c.scheduler.run(count);
    law_a_batch_leaves_the_others_waiting(c.scheduler, count);
    law_new_priorities_keep_those_that_wait(s, priorities);
    assert forall|i: int| 0 <= i < outcomes.len() implies c.transactions.contains(
        (#[trigger] outcomes[i]).0,
    ) && run.results[c.transactions.index_of(outcomes[i].0)] is None by {
        assert(batch.contains(batch[i]));
        assert(c.scheduler.waits(batch[i]));
    }
    assert forall|i: int, j: int| 0 <= i < j < outcomes.len() implies (#[trigger] outcomes[i]).0
        != (#[trigger] outcomes[j]).0 by {
        assert(batch[i] != batch[j]);
    }
    lemma_so_many_fewer(c, run.results, outcomes);
    lemma_results_after_len(c, run.results, outcomes);
    assert forall|tx: usize| #[trigger] after.scheduler.waits(tx) <==> after.transactions.contains(
        tx,
    ) && next.results[after.transactions.index_of(tx)] is None by {
        assert(after.scheduler.waits(tx) == s.waits(tx));
        assert(c.scheduler.waits(tx) == (s.waits(tx) || batch.contains(tx)));
        if c.transactions.contains(tx) {
            if batch.contains(tx) {
                let k = batch.index_of(tx);
                assert(outcomes[k].0 == tx);
                law_results_only_come_in(c, run.results, outcomes, tx);
            } else {
                assert forall|i: int| 0 <= i < outcomes.len() implies c.transactions.contains(
                    (#[trigger] outcomes[i]).0,
                ) && outcomes[i].0 != tx by {
                    assert(batch.contains(batch[i]));
                }
                lemma_other_results_stay(c, run.results, outcomes, tx);
            }
        }
    }
    if c.max_parallel_txs > 0 && (exists|i: int|
        0 <= i < c.scheduler.pending.len() && #[trigger] c.scheduler.executable(i)) {
        law_a_batch_is_not_empty_where_something_can_run(c.scheduler, count);
    }
}

/// Nothing that waits depends on anything.
pub open spec fn independent(s: SchedulerView) -> bool {
    forall|i: int|
        0 <= i < s.pending.len() ==> (#[trigger] s.pending[i]).dependencies == Set::<usize>::empty()
}

/// The rounds of a run, from stage to stage, as long as results are missing.
pub open spec fn are_rounds<BLOCK, TX, R>(
    stages: Seq<(CoordinatorView<BLOCK, TX>, RunView<R>)>,
) -> bool {
    forall|k: int|
        #![trigger stages[k]]
        0 <= k < stages.len() - 1 ==> missing(stages[k].1.results) > 0 && stages[k].0.leads_to(
            stages[k].1,
            stages[k + 1].0,
            stages[k + 1].1,
        )
}

/// A list of transactions that depend on nothing gets all its results without a retry:
/// round by round at least one fewer is missing, so there are no more rounds than
/// transactions, and as long as one is missing the next batch is not empty.
pub proof fn law_an_independent_list_finishes<BLOCK, TX, R>(
    stages: Seq<(CoordinatorView<BLOCK, TX>, RunView<R>)>,
    k: int,
)
    requires
        stages.len() > 0,
        stages[0].0.in_step(stages[0].1),
        independent(stages[0].0.scheduler),
        stages[0].0.max_parallel_txs > 0,
        are_rounds(stages),
        0 <= k < stages.len(),
    ensures
        stages[k].1.retries == stages[0].1.retries,
        stages[k].0.max_retries == stages[0].0.max_retries,
        stages[k].1.results.len() == stages[0].1.results.len(),
        missing(stages[k].1.results) + k <= missing(stages[0].1.results),
        missing(stages[k].1.results) > 0 ==> stages[k].0.scheduler.run(
            stages[k].0.max_parallel_txs as nat,
        ).0.len() > 0,
        stages.len() <= missing(stages[0].1.results) + 1,
{
    lemma_independent_stage(stages, k);
    lemma_independent_stage(stages, stages.len() - 1);
    let c = stages[k].0;
    if missing(stages[k].1.results) > 0 {
        assert(c.scheduler.executable(0));
        law_a_batch_is_not_empty_where_something_can_run(
            c.scheduler,
            c.max_parallel_txs as nat,
        );
    }
}

proof fn lemma_independent_stage<BLOCK, TX, R>(
    stages: Seq<(CoordinatorView<BLOCK, TX>, RunView<R>)>,
    k: int,
)
    requires
        stages.len() > 0,
        stages[0].0.in_step(stages[0].1),
        independent(stages[0].0.scheduler),
        stages[0].0.max_parallel_txs > 0,
        are_rounds(stages),
        0 <= k < stages.len(),
    ensures
        stages[k].0.in_step(stages[k].1),
        independent(stages[k].0.scheduler),
        stages[k].0.max_parallel_txs == stages[0].0.max_parallel_txs,
        stages[k].0.max_retries == stages[0].0.max_retries,
        stages[k].0.transactions == stages[0].0.transactions,
        stages[k].1.retries == stages[0].1.retries,
        missing(stages[k].1.results) + k <= missing(stages[0].1.results),
    decreases k,
{
    if k > 0 {
        let i = k - 1;
        lemma_independent_stage(stages, i);
        let (c, run) = stages[i];
        let (after, next) = stages[k];
        assert(c.leads_to(run, after, next));
        let (outcomes, priorities) = choose|
            outcomes: Seq<(usize, ExecutionResult<R>)>,
            priorities: Seq<u64>,
        | #[trigger] c.round_to(run, outcomes, priorities, after, next);
        assert(c.scheduler.pending.len() > 0);
        assert(c.scheduler.executable(0));
        law_a_round_makes_progress(c, run, outcomes, priorities, after, next);
        law_independent_transactions_fill_a_batch(c.scheduler, c.max_parallel_txs as nat);
    }
}

/// A round leaves the list in step, whatever its outcomes, and so does every later one.
proof fn lemma_stages_in_step<BLOCK, TX, R>(
    stages: Seq<(CoordinatorView<BLOCK, TX>, RunView<R>)>,
    k: int,
)
    requires
        stages.len() > 0,
        stages[0].0.in_step(stages[0].1),
        are_rounds(stages),
        0 <= k < stages.len(),
    ensures
        stages[k].0.in_step(stages[k].1),
    decreases k,
{
    if k > 0 {
        let i = k - 1;
        lemma_stages_in_step(stages, i);
        let (c, run) = stages[i];
        let (after, next) = stages[k];
        assert(c.leads_to(run, after, next));
        let (outcomes, priorities) = choose|
            outcomes: Seq<(usize, ExecutionResult<R>)>,
            priorities: Seq<u64>,
        | #[trigger] c.round_to(run, outcomes, priorities, after, next);
        law_a_round_makes_progress(c, run, outcomes, priorities, after, next);
    }
}

/// What does not wait at a stage of a run waits at no later one.
proof fn lemma_waits_no_more<BLOCK, TX, R>(
    stages: Seq<(CoordinatorView<BLOCK, TX>, RunView<R>)>,
    i: int,
    j: int,
    tx: usize,
)
    requires
        stages.len() > 0,
        stages[0].0.in_step(stages[0].1),
        are_rounds(stages),
        0 <= i <= j < stages.len(),
        !stages[i].0.scheduler.waits(tx),
    ensures
        !stages[j].0.scheduler.waits(tx),
    decreases j,
{
    if i < j {
        lemma_waits_no_more(stages, i, j - 1, tx);
        lemma_stages_in_step(stages, j - 1);
        lemma_round_takes_out(stages, j - 1, tx);
    }
}

/// A round takes out what it hands out, and puts nothing in.
proof fn lemma_round_takes_out<BLOCK, TX, R>(
    stages: Seq<(CoordinatorView<BLOCK, TX>, RunView<R>)>,
    k: int,
    tx: usize,
)
    requires
        are_rounds(stages),
        0 <= k < stages.len() - 1,
        stages[k].0.in_step(stages[k].1),
    ensures
        stages[k + 1].0.scheduler.waits(tx) == (stages[k].0.scheduler.waits(tx)
            && !stages[k].0.next_batch().contains(tx)),
        stages[k].0.next_batch().contains(tx) ==> stages[k].0.scheduler.waits(tx),
{
    let (c, run) = stages[k];
    let (after, next) = stages[k + 1];
    assert(c.leads_to(run, after, next));
    let (outcomes, priorities) = choose|
        outcomes: Seq<(usize, ExecutionResult<R>)>,
        priorities: Seq<u64>,
    | #[trigger] c.round_to(run, outcomes, priorities, after, next);
    let count = c.max_parallel_txs as nat;
    let s = c.scheduler.run(count).1;
    law_a_batch_leaves_the_others_waiting(c.scheduler, count);
    law_new_priorities_keep_those_that_wait(s, priorities);
    assert(c.scheduler.waits(tx) == (s.waits(tx) || c.next_batch().contains(tx)));
    assert(after.scheduler.waits(tx) == s.waits(tx));
}

impl<BLOCK, TX> CoordinatorView<BLOCK, TX> {
    /// The batch that is handed out next.
    pub open spec fn next_batch(self) -> Seq<usize> {
        self.scheduler.run(self.max_parallel_txs as nat).0
    }
}

/// No transaction of a list is handed out twice, in one batch or in two.
pub proof fn law_no_transaction_is_handed_out_twice<BLOCK, TX, R>(
    stages: Seq<(CoordinatorView<BLOCK, TX>, RunView<R>)>,
    i: int,
    j: int,
    tx: usize,
)
    requires
        stages.len() > 0,
        stages[0].0.in_step(stages[0].1),
        are_rounds(stages),
        0 <= i < j < stages.len(),
        stages[i].0.next_batch().contains(tx),
    ensures
        stages[i].0.next_batch().no_duplicates(),
        !stages[j].0.next_batch().contains(tx),
{
    lemma_stages_in_step(stages, i);
    lemma_stages_in_step(stages, j);
    law_a_batch_leaves_the_others_waiting(
        stages[i].0.scheduler,
        stages[i].0.max_parallel_txs as nat,
    );
    lemma_round_takes_out(stages, i, tx);
    lemma_waits_no_more(stages, i + 1, j, tx);
    law_a_batch_leaves_the_others_waiting(
        stages[j].0.scheduler,
        stages[j].0.max_parallel_txs as nat,
    );
    assert(stages[j].0.scheduler.waits(tx) == (stages[j].0.scheduler.run(
        stages[j].0.max_parallel_txs as nat,
    ).1.waits(tx) || stages[j].0.next_batch().contains(tx)));
}

} // verus!
