//! Plans what part of a transaction runs again after a conflict, and leads
//! through such a run.
use crate::collections::KeySet;
use crate::db::versioned::{StateView, VersionedStateDB, VersionedStateDBError};
use crate::parallel::conflict_detector::{
    all_wf, conflict_views, ConflictDetector, ConflictType, ConflictView,
};
use crate::parallel::operation_logs::OperationLog;
use crate::primitives::{Address, StorageKey, U256};
use std::collections::{HashMap, VecDeque};
use vstd::prelude::*;

verus! {

/// A place from which a transaction runs again.
#[derive(Debug)]
pub struct ReexecutionPoint {
    pub tx_index: usize,
    pub op_index: usize,
    pub state_version: u64,
    pub gas_used: u64,
    pub stack_snapshot: Vec<U256>,
    pub memory_snapshot: Vec<u8>,
}

/// A point with its snapshots as sequences.
#[verifier::ext_equal]
pub struct PointView {
    pub tx_index: usize,
    pub op_index: usize,
    pub state_version: u64,
    pub gas_used: u64,
    pub stack: Seq<U256>,
    pub memory: Seq<u8>,
}

impl View for ReexecutionPoint {
    type V = PointView;

    open spec fn view(&self) -> PointView {
        PointView {
            tx_index: self.tx_index,
            op_index: self.op_index,
            state_version: self.state_version,
            gas_used: self.gas_used,
            stack: self.stack_snapshot@,
            memory: self.memory_snapshot@,
        }
    }
}

impl Clone for ReexecutionPoint {
    fn clone(&self) -> (r: Self)
        ensures
            r@ == self@,
    {
        let stack_snapshot = self.stack_snapshot.clone();
        let memory_snapshot = self.memory_snapshot.clone();
        assert(stack_snapshot@ =~= self.stack_snapshot@);
        assert(memory_snapshot@ =~= self.memory_snapshot@);
        ReexecutionPoint {
            tx_index: self.tx_index,
            op_index: self.op_index,
            state_version: self.state_version,
            gas_used: self.gas_used,
            stack_snapshot,
            memory_snapshot,
        }
    }
}

/// A point at which nothing is captured yet.
pub open spec fn bare_point(tx_index: usize, op_index: usize) -> PointView {
    PointView {
        tx_index,
        op_index,
        state_version: 0,
        gas_used: 0,
        stack: Seq::empty(),
        memory: Seq::empty(),
    }
}

/// From where to run again, and what that touches.
#[derive(Debug)]
pub struct ReexecutionPlan {
    points: VecDeque<ReexecutionPoint>,
    affected_addresses: KeySet<Address>,
    affected_slots: KeySet<StorageKey>,
    estimated_gas: u64,
}

/// A plan as a sequence of points and sets.
#[verifier::ext_equal]
pub struct PlanView {
    pub points: Seq<PointView>,
    pub addresses: Set<Address>,
    pub slots: Set<StorageKey>,
    pub estimated_gas: u64,
}

pub open spec fn point_views(points: Seq<ReexecutionPoint>) -> Seq<PointView> {
    Seq::new(points.len(), |i: int| points[i]@)
}

impl View for ReexecutionPlan {
    type V = PlanView;

    closed spec fn view(&self) -> PlanView {
        PlanView {
            points: point_views(self.points@),
            addresses: self.affected_addresses@,
            slots: self.affected_slots@,
            estimated_gas: self.estimated_gas,
        }
    }
}

impl ReexecutionPlan {
    pub closed spec fn wf(self) -> bool {
        self.affected_addresses.wf() && self.affected_slots.wf()
    }

    /// How many points the plan has.
    pub fn len(&self) -> (r: usize)
        ensures
            r == self@.points.len(),
    {
        self.points.len()
    }

    /// A point of the plan.
    pub fn point(&self, i: usize) -> (r: &ReexecutionPoint)
        requires
            i < self@.points.len(),
        ensures
            r@ == self@.points[i as int],
    {
        &self.points[i]
    }

    /// Whether a conflict of the plan is about this account.
    pub fn affects_address(&self, address: Address) -> (r: bool)
        ensures
            r == self@.addresses.contains(address),
    {
        self.affected_addresses.contains(&address)
    }

    /// Whether a conflict of the plan is about this slot.
    pub fn affects_slot(&self, address: Address, slot: U256) -> (r: bool)
        ensures
            r == self@.slots.contains((address, slot)),
    {
        self.affected_slots.contains(&(address, slot))
    }

    /// Sets the version of the state that a point runs on.
    pub fn set_state_version(&mut self, i: usize, version: u64)
        requires
            old(self).wf(),
            i < old(self)@.points.len(),
        ensures
            final(self).wf(),
            final(self)@ == (PlanView {
                points: old(self)@.points.update(
                    i as int,
                    PointView { state_version: version, ..old(self)@.points[i as int] },
                ),
                ..old(self)@
            }),
    {
        let ghost before = self.points@;
        let mut earlier: VecDeque<ReexecutionPoint> = VecDeque::new();
        let n = self.points.len();
        for k in 0..n
            invariant
                self.wf(),
                i < n,
                n == before.len(),
                self.points@ == before.skip(k as int),
                self.affected_addresses == old(self).affected_addresses,
                self.affected_slots == old(self).affected_slots,
                self.estimated_gas == old(self).estimated_gas,
                earlier@.len() == k,
                forall|j: int|
                    0 <= j < k ==> (#[trigger] earlier@[j])@ == if j == i {
                        PointView { state_version: version, ..before[j]@ }
                    } else {
                        before[j]@
                    },
        {
            if let Some(mut point) = self.points.pop_front() {
                assert(point == before[k as int]);
                if k == i {
                    point.state_version = version;
                }
                earlier.push_back(point);
                assert(self.points@ =~= before.skip(k + 1));
            }
        }
        self.points = earlier;
        assert(self@ =~= PlanView {
            points: old(self)@.points.update(
                i as int,
                PointView { state_version: version, ..old(self)@.points[i as int] },
            ),
            ..old(self)@
        });
    }
}

impl ReexecutionPlan {
    /// Sets the version of the state that every point runs on.
    pub fn set_version(&mut self, version: u64)
        requires
            old(self).wf(),
        ensures
            final(self).wf(),
            final(self)@ == old(self)@.on_version(version),
    {
        let n: usize = self.points.len();
        for i in 0..n
            invariant
                self.wf(),
                n == old(self)@.points.len(),
                self@.points.len() == n,
                self@ == (PlanView { points: self@.points, ..old(self)@ }),
                forall|j: int|
                    0 <= j < n ==> (#[trigger] self@.points[j]) == if j < i {
                        PointView { state_version: version, ..old(self)@.points[j] }
                    } else {
                        old(self)@.points[j]
                    },
        {
            self.set_state_version(i, version);
        }
        assert(self@ =~= old(self)@.on_version(version));
    }
}

impl PlanView {
    /// The plan with every point on a version of the state.
    pub open spec fn on_version(self, version: u64) -> PlanView {
        PlanView {
            points: Seq::new(
                self.points.len(),
                |i: int| PointView { state_version: version, ..self.points[i] },
            ),
            ..self
        }
    }
}

impl Clone for ReexecutionPlan {
    fn clone(&self) -> (r: Self)
        ensures
            r@ == self@,
            r.wf() == self.wf(),
    {
        let mut points: VecDeque<ReexecutionPoint> = VecDeque::new();
        let n = self.points.len();
        for i in 0..n
            invariant
                n == self.points@.len(),
                points@.len() == i,
                forall|j: int| 0 <= j < i ==> (#[trigger] points@[j])@ == self.points@[j]@,
        {
            points.push_back(self.points[i].clone());
        }
        let r = ReexecutionPlan {
            points,
            affected_addresses: self.affected_addresses.clone(),
            affected_slots: self.affected_slots.clone(),
            estimated_gas: self.estimated_gas,
        };
        assert(r@ =~= self@);
        r
    }
}

/// The nearest checkpoint at or before an operation.
pub open spec fn checkpoint_before(op_index: usize, interval: usize) -> usize {
    (op_index - op_index % interval) as usize
}

/// From where to run again for a conflict: for an operation, from the checkpoint
/// before it; for a whole transaction, from the start of the earlier one.
pub open spec fn point_for(c: ConflictView, interval: usize) -> PointView {
    match c {
        ConflictView::OperationLevel { tx_index, op_index, .. } => bare_point(
            tx_index,
            checkpoint_before(op_index, interval),
        ),
        ConflictView::TransactionLevel { tx1_index, tx2_index, .. } => bare_point(
            if tx1_index < tx2_index {
                tx1_index
            } else {
                tx2_index
            },
            0,
        ),
    }
}

/// Whether a conflict is about an account.
pub open spec fn concerns_address(c: ConflictView, a: Address) -> bool {
    match c {
        ConflictView::OperationLevel { address, .. } => address == a,
        ConflictView::TransactionLevel { addresses, .. } => addresses.contains(a),
    }
}

/// Whether a conflict is about a slot.
pub open spec fn concerns_slot(c: ConflictView, key: StorageKey) -> bool {
    match c {
        ConflictView::OperationLevel { address, slot, .. } => address == key.0 && slot == Some(
            key.1,
        ),
        ConflictView::TransactionLevel { .. } => false,
    }
}

/// Whether one of some conflicts is about an account.
pub open spec fn some_concern_address(conflicts: Seq<ConflictView>, a: Address) -> bool {
    exists|i: int| 0 <= i < conflicts.len() && concerns_address(#[trigger] conflicts[i], a)
}

/// Whether one of some conflicts is about a slot.
pub open spec fn some_concern_slot(conflicts: Seq<ConflictView>, key: StorageKey) -> bool {
    exists|i: int| 0 <= i < conflicts.len() && concerns_slot(#[trigger] conflicts[i], key)
}

/// The plan for some conflicts: one point for each, in their order.
pub open spec fn plan_for(conflicts: Seq<ConflictView>, interval: usize) -> PlanView {
    PlanView {
        points: Seq::new(conflicts.len(), |i: int| point_for(conflicts[i], interval)),
        addresses: Set::new(|a: Address| some_concern_address(conflicts, a)),
        slots: Set::new(|key: StorageKey| some_concern_slot(conflicts, key)),
        estimated_gas: 0,
    }
}

proof fn lemma_plan_push(conflicts: Seq<ConflictView>, c: ConflictView, interval: usize)
    ensures
        plan_for(conflicts.push(c), interval).points == plan_for(conflicts, interval).points.push(
            point_for(c, interval),
        ),
        forall|a: Address| #[trigger]
            some_concern_address(conflicts.push(c), a) == (some_concern_address(conflicts, a)
                || concerns_address(c, a)),
        forall|key: StorageKey| #[trigger]
            some_concern_slot(conflicts.push(c), key) == (some_concern_slot(conflicts, key)
                || concerns_slot(c, key)),
{
    let after = conflicts.push(c);
    let n = conflicts.len() as int;
    assert(plan_for(after, interval).points =~= plan_for(conflicts, interval).points.push(
        point_for(c, interval),
    ));
    assert forall|a: Address| #[trigger]
        some_concern_address(after, a) == (some_concern_address(conflicts, a) || concerns_address(
            c,
            a,
        )) by {
        if some_concern_address(conflicts, a) {
            let i = choose|i: int|
                0 <= i < conflicts.len() && concerns_address(#[trigger] conflicts[i], a);
            assert(concerns_address(after[i], a));
        }
        if concerns_address(c, a) {
            assert(concerns_address(after[n], a));
        }
        if some_concern_address(after, a) {
            let i = choose|i: int| 0 <= i < after.len() && concerns_address(#[trigger] after[i], a);
            if i < n {
                assert(concerns_address(conflicts[i], a));
            }
        }
    }
    assert forall|key: StorageKey| #[trigger]
        some_concern_slot(after, key) == (some_concern_slot(conflicts, key) || concerns_slot(
            c,
            key,
        )) by {
        if some_concern_slot(conflicts, key) {
            let i = choose|i: int|
                0 <= i < conflicts.len() && concerns_slot(#[trigger] conflicts[i], key);
            assert(concerns_slot(after[i], key));
        }
        if concerns_slot(c, key) {
            assert(concerns_slot(after[n], key));
        }
        if some_concern_slot(after, key) {
            let i = choose|i: int| 0 <= i < after.len() && concerns_slot(#[trigger] after[i], key);
            if i < n {
                assert(concerns_slot(conflicts[i], key));
            }
        }
    }
}

/// Plans re-executions, and keeps the last plan of each transaction.
#[derive(Debug)]
pub struct PartialReexecutor {
    conflict_detector: ConflictDetector,
    reexecution_cache: HashMap<usize, ReexecutionPlan>,
    checkpoint_interval: usize,
}

impl PartialReexecutor {
    pub closed spec fn wf(self) -> bool {
        &&& self.conflict_detector.wf()
        &&& forall|tx: usize| #[trigger]
            self.reexecution_cache@.contains_key(tx) ==> self.reexecution_cache@[tx].wf()
    }

    /// Every how many operations there is a checkpoint.
    pub closed spec fn interval(self) -> usize {
        self.checkpoint_interval
    }

    /// The last plan of each transaction.
    pub closed spec fn plans(self) -> Map<usize, PlanView> {
        self.reexecution_cache@.map_values(|plan: ReexecutionPlan| plan@)
    }

    pub fn new(checkpoint_interval: usize) -> (r: Self)
        ensures
            r.wf(),
            r.interval() == checkpoint_interval,
            r.plans() == Map::<usize, PlanView>::empty(),
    {
        let r = PartialReexecutor {
            conflict_detector: ConflictDetector::new(),
            reexecution_cache: HashMap::new(),
            checkpoint_interval,
        };
        assert(r.plans() =~= Map::<usize, PlanView>::empty());
        r
    }

    /// Plans the re-execution of a transaction for its conflicts, and keeps the
    /// plan under its index. Where a conflict is with a single operation there
    /// have to be checkpoints.
    pub fn prepare_reexecution<'a, BLOCK, TX>(
        &mut self,
        operation_log: &OperationLog<'a, BLOCK, TX>,
        conflicts: &Vec<ConflictType>,
    ) -> (r: ReexecutionPlan)
        requires
            old(self).wf(),
            all_wf(conflicts@),
            old(self).interval() > 0 || forall|i: int|
                0 <= i < conflicts@.len() ==> (#[trigger] conflicts@[i]) is TransactionLevel,
        ensures
            final(self).wf(),
            final(self).interval() == old(self).interval(),
            r.wf(),
            r@ == plan_for(conflict_views(conflicts@), old(self).interval()),
            final(self).plans() == old(self).plans().insert(operation_log@.tx_index, r@),
    {
        let tx_index = operation_log.tx_index();
        let mut plan = ReexecutionPlan {
            points: VecDeque::new(),
            affected_addresses: KeySet::new(),
            affected_slots: KeySet::new(),
            estimated_gas: 0,
        };
        let ghost views = conflict_views(conflicts@);
        let ghost interval = self.checkpoint_interval;
        proof {
            assert(views.take(0) =~= Seq::empty());
            assert(plan@ =~= plan_for(views.take(0), interval));
        }
        for i in 0..conflicts.len()
            invariant
                *self == *old(self),
                views == conflict_views(conflicts@),
                interval == self.checkpoint_interval,
                interval > 0 || forall|i: int|
                    0 <= i < conflicts@.len() ==> (#[trigger] conflicts@[i]) is TransactionLevel,
                plan.wf(),
                plan@ == plan_for(views.take(i as int), interval),
        {
            let ghost before = plan@;
            proof {
                assert(views[i as int] == conflicts@[i as int]@);
                assert(views.take(i + 1) =~= views.take(i as int).push(views[i as int]));
                lemma_plan_push(views.take(i as int), views[i as int], interval);
            }
            match &conflicts[i] {
                ConflictType::OperationLevel { tx_index, op_index, address, slot } => {
                    plan.affected_addresses.insert(*address);
                    if let Some(slot) = slot {
                        plan.affected_slots.insert((*address, *slot));
                    }
                    proof {
                        vstd::arithmetic::div_mod::lemma_mod_decreases(
                            *op_index as nat,
                            interval as nat,
                        );
                    }
                    let checkpoint_index: usize = *op_index - (*op_index % self.checkpoint_interval);
                    self.add_reexecution_point(&mut plan, *tx_index, checkpoint_index);
                },
                ConflictType::TransactionLevel { tx1_index, tx2_index, conflicting_addresses } => {
                    plan.affected_addresses.extend(conflicting_addresses);
                    let first: usize = if *tx1_index < *tx2_index {
                        *tx1_index
                    } else {
                        *tx2_index
                    };
                    self.add_reexecution_point(&mut plan, first, 0);
                },
            }
            proof {
                let want = plan_for(views.take(i + 1), interval);
                assert(plan@.addresses =~= want.addresses);
                assert(plan@.slots =~= want.slots);
                assert(plan@ =~= want);
            }
        }
        assert(views.take(views.len() as int) =~= views);
        self.reexecution_cache.insert(tx_index, plan.clone());
        assert(self.plans() =~= old(self).plans().insert(operation_log@.tx_index, plan@));
        plan
    }

    /// Adds a point at which nothing is captured yet.
    fn add_reexecution_point(&self, plan: &mut ReexecutionPlan, tx_index: usize, op_index: usize)
        ensures
            final(plan).wf() == old(plan).wf(),
            final(plan)@ == (PlanView {
                points: old(plan)@.points.push(bare_point(tx_index, op_index)),
                ..old(plan)@
            }),
    {
        let point = ReexecutionPoint {
            tx_index,
            op_index,
            state_version: 0,
            gas_used: 0,
            stack_snapshot: Vec::new(),
            memory_snapshot: Vec::new(),
        };
        assert(point@ =~= bare_point(tx_index, op_index));
        plan.points.push_back(point);
        assert(plan@ =~= PlanView {
            points: old(plan)@.points.push(bare_point(tx_index, op_index)),
            ..old(plan)@
        });
    }

    /// A checkpoint of a transaction, at which nothing is captured yet.
    pub fn create_checkpoint(&mut self, tx_index: usize, op_index: usize) -> (r: ReexecutionPoint)
        ensures
            *final(self) == *old(self),
            r@ == bare_point(tx_index, op_index),
    {
        let point = ReexecutionPoint {
            tx_index,
            op_index,
            state_version: 0,
            gas_used: 0,
            stack_snapshot: Vec::new(),
            memory_snapshot: Vec::new(),
        };
        assert(point@ =~= bare_point(tx_index, op_index));
        point
    }

    /// The next step of a re-execution, of which the first `done` points have run.
    /// The state gets a fresh version; if there is a point left, the version that
    /// it runs on becomes current and the transaction is to be executed from it.
    /// A point whose version is not there ends the re-execution.
    pub fn reexecute(
        &self,
        db: &mut VersionedStateDB,
        tx_index: usize,
        plan: &ReexecutionPlan,
        done: usize,
    ) -> (r: ReexecutionStep)
        requires
            old(db).wf(),
            old(db)@.current < u64::MAX,
        ensures
            final(db).wf(),
            (r, final(db)@) == step_of(old(db)@, tx_index, plan@, done),
    {
        let _ = db.create_snapshot();
        if done >= plan.points.len() {
            return ReexecutionStep::Finished;
        }
        let point = &plan.points[done];
        assert(plan@.points[done as int] == point@);
        match db.switch_to_version(point.state_version) {
            Ok(()) => ReexecutionStep::Execute { tx_index, op_index: point.op_index },
            Err(e) => ReexecutionStep::Failed(e),
        }
    }
}

/// The step of a re-execution after the first `done` points have run, and the state
/// after it.
pub open spec fn step_of(
    state: StateView,
    tx_index: usize,
    plan: PlanView,
    done: usize,
) -> (ReexecutionStep, StateView) {
    let fresh = state.snapshot();
    if done >= plan.points.len() {
        (ReexecutionStep::Finished, fresh)
    } else {
        let point = plan.points[done as int];
        if fresh.versions.contains_key(point.state_version) {
            (
                ReexecutionStep::Execute { tx_index, op_index: point.op_index },
                StateView { current: point.state_version, ..fresh },
            )
        } else {
            (
                ReexecutionStep::Failed(
                    VersionedStateDBError::VersionNotFound(point.state_version),
                ),
                fresh,
            )
        }
    }
}

/// What a re-execution asks for next.
#[derive(Debug)]
pub enum ReexecutionStep {
    /// The transaction is to run from this operation on.
    Execute { tx_index: usize, op_index: usize },
    /// Every point has run.
    Finished,
    /// The state could not be brought to the version of the next point.
    Failed(VersionedStateDBError),
}

/// A checkpoint lies on a multiple of the interval, at or before the operation and
/// less than an interval away from it.
pub proof fn law_checkpoint_is_nearest(op_index: usize, interval: usize)
    requires
        interval > 0,
    ensures
        checkpoint_before(op_index, interval) <= op_index,
        op_index - checkpoint_before(op_index, interval) < interval,
        checkpoint_before(op_index, interval) as int % interval as int == 0,
{
    let x = op_index as int;
    let m = interval as int;
    vstd::arithmetic::div_mod::lemma_mod_decreases(op_index as nat, interval as nat);
    vstd::arithmetic::div_mod::lemma_fundamental_div_mod(x, m);
    assert(x - x % m == m * (x / m));
    vstd::arithmetic::div_mod::lemma_mod_multiples_basic(x / m, m);
    assert(m * (x / m) == (x / m) * m) by (nonlinear_arith);
}

/// No plan runs a transaction from before its first operation that is in conflict
/// by more than an interval, nor from behind it, and each conflict has its point.
pub proof fn law_every_conflict_has_its_point(
    conflicts: Seq<ConflictView>,
    interval: usize,
    i: int,
)
    requires
        interval > 0,
        0 <= i < conflicts.len(),
    ensures
        plan_for(conflicts, interval).points.len() == conflicts.len(),
        match conflicts[i] {
            ConflictView::OperationLevel { tx_index, op_index, .. } => plan_for(
                conflicts,
                interval,
            ).points[i].tx_index == tx_index && plan_for(conflicts, interval).points[i].op_index
                <= op_index < plan_for(conflicts, interval).points[i].op_index + interval,
            ConflictView::TransactionLevel { tx1_index, tx2_index, .. } => plan_for(
                conflicts,
                interval,
            ).points[i].tx_index <= tx1_index && plan_for(conflicts, interval).points[i].tx_index
                <= tx2_index && plan_for(conflicts, interval).points[i].op_index == 0,
        },
{
    if let ConflictView::OperationLevel { op_index, .. } = conflicts[i] {
        law_checkpoint_is_nearest(op_index, interval);
    }
}

} // verus!
