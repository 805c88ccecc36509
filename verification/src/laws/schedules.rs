//! Which transaction is taken next, and what taking it changes.
use crate::scheduler::scheduler::{linked, SchedulerView, WaitingView};
use vstd::prelude::*;

verus! {

/// Whether all that a waiting transaction depends on has been scheduled.
pub open spec fn is_free(s: SchedulerView, i: int) -> bool {
    forall|tx: usize| #[trigger]
        s.pending[i].dependencies.contains(tx) ==> s.scheduled.contains(tx)
}

/// Whether a waiting transaction is free and none that is free has a higher priority, or the
/// same and has waited longer in the queue.
pub open spec fn is_best(s: SchedulerView, i: int) -> bool {
    &&& 0 <= i < s.pending.len()
    &&& is_free(s, i)
    &&& forall|j: int|
        0 <= j < s.pending.len() && #[trigger] is_free(s, j) ==> s.pending[j].priority
            <= s.pending[i].priority
    &&& forall|j: int|
        0 <= j < i && #[trigger] is_free(s, j) ==> s.pending[j].priority < s.pending[i].priority
}

proof fn lemma_free(s: SchedulerView, i: int)
    ensures
        s.executable(i) <==> is_free(s, i),
{
}

proof fn lemma_best(s: SchedulerView, i: int)
    ensures
        s.is_next(i) <==> is_best(s, i),
{
    assert forall|j: int| s.executable(j) <==> is_free(s, j) by {
        lemma_free(s, j);
    }
    if s.is_next(i) {
        assert forall|j: int| 0 <= j < s.pending.len() && #[trigger] is_free(s, j) implies
            s.pending[j].priority <= s.pending[i].priority by {
            assert(s.executable(j));
        }
        assert forall|j: int| 0 <= j < i && #[trigger] is_free(s, j) implies s.pending[j].priority
            < s.pending[i].priority by {
            assert(s.executable(j));
        }
    }
    if is_best(s, i) {
        assert forall|j: int| 0 <= j < s.pending.len() && #[trigger] s.executable(j) implies (
        s.pending[j].priority < s.pending[i].priority || (s.pending[j].priority
            == s.pending[i].priority && i <= j)) by {
            assert(is_free(s, j));
        }
    }
}

/// The transaction that is next is the one of the highest priority among those that are free,
/// and of these the first in the queue; there is a next one as soon as any is free.
pub proof fn law_the_next_is_the_best(s: SchedulerView, i: int)
    ensures
        s.executable(i) <==> is_free(s, i),
        s.is_next(i) <==> is_best(s, i),
        s.has_next() <==> exists|j: int| 0 <= j < s.pending.len() && #[trigger] is_free(s, j),
        s.has_next() ==> is_best(s, s.next()),
{
    lemma_free(s, i);
    lemma_best(s, i);
    if s.has_next() {
        let k = s.next();
        assert(s.is_next(k));
        lemma_best(s, k);
        assert(is_free(s, k));
    }
    if exists|j: int| 0 <= j < s.pending.len() && #[trigger] is_free(s, j) {
        let j = choose|j: int| 0 <= j < s.pending.len() && #[trigger] is_free(s, j);
        let k = lemma_some_best(s, s.pending.len() as int, j);
        lemma_best(s, k);
        assert(s.is_next(k));
    }
}

proof fn lemma_some_best(s: SchedulerView, n: int, free: int) -> (k: int)
    requires
        0 <= free < n <= s.pending.len(),
        is_free(s, free),
    ensures
        0 <= k < n,
        is_free(s, k),
        forall|j: int|
            0 <= j < n && #[trigger] is_free(s, j) ==> s.pending[j].priority
                <= s.pending[k].priority,
        forall|j: int|
            0 <= j < k && #[trigger] is_free(s, j) ==> s.pending[j].priority
                < s.pending[k].priority,
    decreases n,
{
    let last = n - 1;
    if exists|j: int| 0 <= j < last && #[trigger] is_free(s, j) {
        let j = choose|j: int| 0 <= j < last && #[trigger] is_free(s, j);
        let k = lemma_some_best(s, last, j);
        if is_free(s, last) && s.pending[last].priority > s.pending[k].priority {
            last
        } else {
            k
        }
    } else {
        assert(free == last);
        last
    }
}

/// To take a transaction is to move it from the queue to those scheduled; the others wait on in
/// their order.
pub proof fn law_what_taking_a_transaction_changes(s: SchedulerView, i: int, j: int)
    requires
        0 <= i < s.pending.len(),
    ensures
        s.taken(i).pending.len() == s.pending.len() - 1,
        0 <= j < i ==> s.taken(i).pending[j] == s.pending[j],
        i < j < s.pending.len() ==> s.taken(i).pending[j - 1] == s.pending[j],
        forall|tx: usize| #[trigger]
            s.taken(i).scheduled.contains(tx) <==> s.scheduled.contains(tx) || tx
                == s.pending[i].tx_index,
        s.taken(i).links == s.links,
{
}

/// Each further turn of a run takes the best of the transactions that are free by then, and
/// ends the run where none is.
pub proof fn law_each_turn_takes_the_best(s: SchedulerView, count: nat)
    ensures
        s.run(0).0.len() == 0,
        s.run(0).1 == s,
        ({
            let (batch, after) = s.run(count);
            let (longer, last) = s.run(count + 1);
            if exists|j: int| 0 <= j < after.pending.len() && #[trigger] is_free(after, j) {
                exists|i: int| #[trigger]
                    is_best(after, i) && longer == batch + seq![after.pending[i].tx_index] && last
                        == after.taken(i)
            } else {
                longer == batch && last == after
            }
        }),
{
    let (batch, after) = s.run(count);
    law_the_next_is_the_best(after, 0);
    if after.has_next() {
        let i = after.next();
        assert(is_best(after, i));
        assert(s.run(count + 1).0 =~= batch + seq![after.pending[i].tx_index]);
    }
}

/// A transaction that is added waits last in the queue. It is linked to all that it depends
/// on, and each of these that is known is linked back to it; no other link changes.
pub proof fn law_what_adding_a_transaction_changes(
    s: SchedulerView,
    waiting: WaitingView,
    tx: usize,
    other: usize,
)
    ensures
        s.added(waiting).pending == s.pending + seq![waiting],
        s.added(waiting).scheduled == s.scheduled,
        s.added(waiting).links.contains_key(tx) <==> s.links.contains_key(tx) || tx
            == waiting.tx_index,
        s.added(waiting).links.contains_key(tx) && tx != waiting.tx_index ==> (s.added(
            waiting,
        ).links[tx].contains(other) <==> s.links[tx].contains(other) || (other == waiting.tx_index
            && waiting.dependencies.contains(tx))),
        s.added(waiting).links[waiting.tx_index].contains(other)
            <==> waiting.dependencies.contains(other),
{
    assert(s.added(waiting).pending =~= s.pending + seq![waiting]);
    if waiting.dependencies.contains(waiting.tx_index) {
        assert(waiting.dependencies.insert(waiting.tx_index) =~= waiting.dependencies);
    }
    assert(linked(s.links, waiting.tx_index, waiting.dependencies) == s.added(waiting).links);
}

/// New priorities go to the waiting transactions one by one, in the order of the queue, and
/// nothing else about them changes.
pub proof fn law_what_new_priorities_change(s: SchedulerView, priorities: Seq<u64>, i: int)
    requires
        priorities.len() == s.pending.len(),
        0 <= i < s.pending.len(),
    ensures
        s.reprioritized(priorities).pending.len() == s.pending.len(),
        s.reprioritized(priorities).pending[i].priority == priorities[i],
        s.reprioritized(priorities).pending[i].tx_index == s.pending[i].tx_index,
        s.reprioritized(priorities).pending[i].gas_price == s.pending[i].gas_price,
        s.reprioritized(priorities).pending[i].estimated_gas == s.pending[i].estimated_gas,
        s.reprioritized(priorities).pending[i].dependencies == s.pending[i].dependencies,
        s.reprioritized(priorities).pending[i].waiting_since == s.pending[i].waiting_since,
        s.reprioritized(priorities).scheduled == s.scheduled,
        s.reprioritized(priorities).links == s.links,
{
}

} // verus!
