//! Which transactions depend on which, and an order in which to run them again.
use crate::collections::{KeyMap, KeySet};
use crate::primitives::{Address, StorageKey, U256};
use std::collections::{HashMap, HashSet};
use vstd::prelude::*;

verus! {

/// Dependencies between transactions, and who accessed what.
#[derive(Debug)]
pub struct DependencyTracker {
    dependencies: HashMap<usize, KeySet<usize>>,
    slot_access: KeyMap<StorageKey, Vec<usize>>,
    account_access: KeyMap<Address, Vec<usize>>,
}

/// The tracker as maps.
#[verifier::ext_equal]
pub struct TrackerView {
    pub dependencies: Map<usize, Set<usize>>,
    pub slots: Map<StorageKey, Seq<usize>>,
    pub accounts: Map<Address, Seq<usize>>,
}

/// The transactions that a transaction depends on.
pub open spec fn deps_of(dependencies: Map<usize, Set<usize>>, tx: usize) -> Set<usize> {
    if dependencies.contains_key(tx) {
        dependencies[tx]
    } else {
        Set::empty()
    }
}

/// What is listed under a key.
pub open spec fn listed<K>(lists: Map<K, Seq<usize>>, key: K) -> Seq<usize> {
    if lists.contains_key(key) {
        lists[key]
    } else {
        Seq::empty()
    }
}

impl View for DependencyTracker {
    type V = TrackerView;

    closed spec fn view(&self) -> TrackerView {
        TrackerView {
            dependencies: self.dependencies@.map_values(|s: KeySet<usize>| s@),
            slots: self.slot_access@.map_values(|v: Vec<usize>| v@),
            accounts: self.account_access@.map_values(|v: Vec<usize>| v@),
        }
    }
}

impl DependencyTracker {
    pub closed spec fn wf(self) -> bool {
        &&& self.slot_access.wf()
        &&& self.account_access.wf()
        &&& forall|tx: usize| #[trigger]
            self.dependencies@.contains_key(tx) ==> self.dependencies@[tx].wf()
    }

    pub fn new() -> (r: Self)
        ensures
            r.wf(),
            r@ == (TrackerView {
                dependencies: Map::empty(),
                slots: Map::empty(),
                accounts: Map::empty(),
            }),
    {
        let r = DependencyTracker {
            dependencies: HashMap::new(),
            slot_access: KeyMap::new(),
            account_access: KeyMap::new(),
        };
        assert(r@ =~= TrackerView {
            dependencies: Map::empty(),
            slots: Map::empty(),
            accounts: Map::empty(),
        });
        r
    }

    /// Notes that one transaction depends on another.
    pub fn add_dependency(&mut self, from_tx: usize, to_tx: usize)
        requires
            old(self).wf(),
        ensures
            final(self).wf(),
            final(self)@ == (TrackerView {
                dependencies: old(self)@.dependencies.insert(
                    from_tx,
                    deps_of(old(self)@.dependencies, from_tx).insert(to_tx),
                ),
                ..old(self)@
            }),
    {
        let mut deps = match self.dependencies.remove(&from_tx) {
            Some(deps) => deps,
            None => KeySet::new(),
        };
        assert(deps@ == deps_of(old(self)@.dependencies, from_tx));
        deps.insert(to_tx);
        self.dependencies.insert(from_tx, deps);
        assert(self@ =~= TrackerView {
            dependencies: old(self)@.dependencies.insert(
                from_tx,
                deps_of(old(self)@.dependencies, from_tx).insert(to_tx),
            ),
            ..old(self)@
        });
    }

    pub fn get_dependencies(&self, tx_idx: usize) -> (r: KeySet<usize>)
        requires
            self.wf(),
        ensures
            r.wf(),
            r@ == deps_of(self@.dependencies, tx_idx),
    {
        match self.dependencies.get(&tx_idx) {
            Some(deps) => deps.clone(),
            None => KeySet::new(),
        }
    }

    /// Notes that a transaction accessed a slot.
    pub fn record_slot_access(&mut self, address: Address, slot: U256, tx_idx: usize)
        requires
            old(self).wf(),
        ensures
            final(self).wf(),
            final(self)@ == (TrackerView {
                slots: old(self)@.slots.insert(
                    (address, slot),
                    listed(old(self)@.slots, (address, slot)).push(tx_idx),
                ),
                ..old(self)@
            }),
    {
        let key = (address, slot);
        let mut list = match self.slot_access.remove(&key) {
            Some(list) => list,
            None => Vec::new(),
        };
        assert(list@ =~= listed(old(self)@.slots, key));
        list.push(tx_idx);
        self.slot_access.insert(key, list);
        assert(self@ =~= TrackerView {
            slots: old(self)@.slots.insert(key, listed(old(self)@.slots, key).push(tx_idx)),
            ..old(self)@
        });
    }

    /// Notes that a transaction accessed an account.
    pub fn record_account_access(&mut self, address: Address, tx_idx: usize)
        requires
            old(self).wf(),
        ensures
            final(self).wf(),
            final(self)@ == (TrackerView {
                accounts: old(self)@.accounts.insert(
                    address,
                    listed(old(self)@.accounts, address).push(tx_idx),
                ),
                ..old(self)@
            }),
    {
        let mut list = match self.account_access.remove(&address) {
            Some(list) => list,
            None => Vec::new(),
        };
        assert(list@ =~= listed(old(self)@.accounts, address));
        list.push(tx_idx);
        self.account_access.insert(address, list);
        assert(self@ =~= TrackerView {
            accounts: old(self)@.accounts.insert(
                address,
                listed(old(self)@.accounts, address).push(tx_idx),
            ),
            ..old(self)@
        });
    }
}

/// Every dependency of a member is a member.
pub open spec fn deps_closed(dependencies: Map<usize, Set<usize>>, s: Set<usize>) -> bool {
    forall|x: usize, d: usize| #[trigger]
        s.contains(x) && #[trigger] deps_of(dependencies, x).contains(d) ==> s.contains(d)
}

/// A rank that goes down along every dependency, which shows that there are no
/// cycles.
pub open spec fn is_rank(
    dependencies: Map<usize, Set<usize>>,
    rank: spec_fn(usize) -> nat,
) -> bool {
    forall|x: usize, d: usize| #[trigger]
        deps_of(dependencies, x).contains(d) ==> rank(d) < rank(x)
}

/// Whether something stands in a sequence before a position.
pub open spec fn stands_before(s: Seq<usize>, i: int, x: usize) -> bool {
    s.take(i).contains(x)
}

/// From a position on, everything stands behind what it depends on.
pub open spec fn behind_its_deps(
    dependencies: Map<usize, Set<usize>>,
    ordered: Seq<usize>,
    from: int,
) -> bool {
    forall|i: int, d: usize|
        #![trigger stands_before(ordered, i, d)]
        from <= i < ordered.len() && deps_of(dependencies, ordered[i]).contains(d)
            ==> stands_before(ordered, i, d)
}

proof fn lemma_behind_extends(
    dependencies: Map<usize, Set<usize>>,
    short: Seq<usize>,
    long: Seq<usize>,
    from: int,
)
    requires
        0 <= from,
        short.len() <= long.len(),
        long.take(short.len() as int) == short,
        behind_its_deps(dependencies, short, from),
        behind_its_deps(dependencies, long, short.len() as int),
    ensures
        behind_its_deps(dependencies, long, from),
{
    assert forall|i: int, d: usize|
        #![trigger stands_before(long, i, d)]
        from <= i < long.len() && deps_of(dependencies, long[i]).contains(d) implies stands_before(
        long,
        i,
        d,
    ) by {
        if i < short.len() {
            assert(long.take(short.len() as int)[i] == long[i]);
            assert(short[i] == long[i]);
            assert(stands_before(short, i, d));
            assert(short.take(i) =~= long.take(i));
        }
    }
}

/// Whether an order lists exactly what has to run when some transactions run again:
/// them and, step by step, all they depend on, each once; and wherever the
/// dependencies have no cycle, everything behind what it depends on.
pub open spec fn is_reexecution_order(
    dependencies: Map<usize, Set<usize>>,
    queue: Set<usize>,
    order: Seq<usize>,
) -> bool {
    &&& order.no_duplicates()
    &&& forall|x: usize|
        #![trigger queue.contains(x)]
        #![trigger order.contains(x)]
        queue.contains(x) ==> order.contains(x)
    &&& deps_closed(dependencies, order.to_set())
    &&& forall|s: Set<usize>, x: usize|
        #![trigger s.contains(x), deps_closed(dependencies, s)]
        deps_closed(dependencies, s) && queue.subset_of(s) && order.contains(x) ==> s.contains(x)
    &&& forall|rank: spec_fn(usize) -> nat| #[trigger]
        is_rank(dependencies, rank) ==> behind_its_deps(dependencies, order, 0)
}

/// An order in which to run transactions again, each after what it depends on. A
/// dependency that would close a cycle is not waited for.
pub fn determine_reexecution_order(
    dependency_tracker: &DependencyTracker,
    reexecution_queue: &KeySet<usize>,
) -> (r: Vec<usize>)
    requires
        dependency_tracker.wf(),
    ensures
        is_reexecution_order(dependency_tracker@.dependencies, reexecution_queue@, r@),
{
    let mut ordered: Vec<usize> = Vec::new();
    let mut visited: HashSet<usize> = HashSet::new();
    let mut temp_visited: HashSet<usize> = HashSet::new();
    let ghost deps = dependency_tracker@.dependencies;
    let ghost queue = reexecution_queue@;
    let n = reexecution_queue.len();
    assert(ordered@.to_set() =~= Set::<usize>::empty());
    for i in 0..n
        invariant
            dependency_tracker.wf(),
            deps == dependency_tracker@.dependencies,
            queue == reexecution_queue@,
            n == reexecution_queue.order().len(),
            temp_visited@ == Set::<usize>::empty(),
            ordered@.no_duplicates(),
            ordered@.to_set() == visited@,
            forall|j: int| 0 <= j < i ==> visited@.contains(#[trigger] reexecution_queue.order()[j]),
            deps_closed(deps, visited@),
            forall|s: Set<usize>, x: usize|
                #![trigger s.contains(x), deps_closed(deps, s)]
                deps_closed(deps, s) && queue.subset_of(s) && visited@.contains(x) ==> s.contains(
                    x,
                ),
            forall|rank: spec_fn(usize) -> nat| #[trigger]
                is_rank(deps, rank) ==> behind_its_deps(deps, ordered@, 0),
    {
        let tx_idx = reexecution_queue.at(i);
        if !visited.contains(&tx_idx) {
            let ghost before = ordered@;
            let ghost seen = visited@;
            topological_sort(
                tx_idx,
                dependency_tracker,
                &mut ordered,
                &mut visited,
                &mut temp_visited,
            );
            proof {
                assert forall|rank: spec_fn(usize) -> nat| #[trigger]
                    is_rank(deps, rank) implies behind_its_deps(deps, ordered@, 0) by {
                    assert(above(rank, temp_visited@, tx_idx));
                    lemma_behind_extends(deps, before, ordered@, 0);
                }
                assert forall|s: Set<usize>, x: usize|
                    #![trigger s.contains(x), deps_closed(deps, s)]
                    deps_closed(deps, s) && queue.subset_of(s) && visited@.contains(
                        x,
                    ) implies s.contains(x) by {
                    assert(queue.contains(tx_idx));
                    assert(s.contains(tx_idx));
                }
                assert forall|x: usize, d: usize| #[trigger]
                    visited@.contains(x) && #[trigger] deps_of(deps, x).contains(
                        d,
                    ) implies visited@.contains(d) by {
                    if seen.contains(x) {
                        assert(seen.contains(d));
                    }
                }
            }
        }
    }
    proof {
        assert forall|x: usize| #[trigger] queue.contains(x) implies ordered@.contains(x) by {
            let j = reexecution_queue.order().index_of(x);
            assert(reexecution_queue.order()[j] == x);
            assert(ordered@.to_set().contains(x));
        }
        assert forall|s: Set<usize>, x: usize|
            #![trigger s.contains(x), deps_closed(deps, s)]
            deps_closed(deps, s) && queue.subset_of(s) && ordered@.contains(x) implies s.contains(
            x,
        ) by {
            assert(ordered@.to_set().contains(x));
        }
    }
    ordered
}

/// Everything that is being visited ranks above a transaction.
pub open spec fn above(rank: spec_fn(usize) -> nat, visiting: Set<usize>, tx: usize) -> bool {
    forall|t: usize| #[trigger] visiting.contains(t) ==> rank(t) > rank(tx)
}

/// How many transactions are not being visited yet.
spec fn unvisited(visiting: Set<usize>) -> nat {
    Set::<usize>::full().difference(visiting).len()
}

proof fn lemma_unvisited(visiting: Set<usize>, tx: usize)
    requires
        !visiting.contains(tx),
    ensures
        unvisited(visiting.insert(tx)) < unvisited(visiting),
{
    <usize as vstd::set_lib::FiniteFull>::full_properties();
    let rest = Set::<usize>::full().difference(visiting);
    assert(Set::<usize>::full().difference(visiting.insert(tx)) =~= rest.remove(tx));
}

/// Lists a transaction and all it depends on that is not listed yet, what is
/// depended on first. What is just being visited is skipped: that is a cycle.
fn topological_sort(
    tx_idx: usize,
    dependency_tracker: &DependencyTracker,
    ordered: &mut Vec<usize>,
    visited: &mut HashSet<usize>,
    temp_visited: &mut HashSet<usize>,
)
    requires
        dependency_tracker.wf(),
        old(ordered)@.no_duplicates(),
        old(ordered)@.to_set() == old(visited)@,
        old(visited)@.disjoint(old(temp_visited)@),
    ensures
        final(temp_visited)@ == old(temp_visited)@,
        final(ordered)@.no_duplicates(),
        final(ordered)@.to_set() == final(visited)@,
        final(visited)@.disjoint(final(temp_visited)@),
        old(ordered)@.len() <= final(ordered)@.len(),
        final(ordered)@.take(old(ordered)@.len() as int) == old(ordered)@,
        old(visited)@.subset_of(final(visited)@),
        !old(temp_visited)@.contains(tx_idx) ==> final(visited)@.contains(tx_idx),
        forall|x: usize, d: usize| #[trigger]
            final(visited)@.contains(x) && !old(visited)@.contains(x) && #[trigger] deps_of(
                dependency_tracker@.dependencies,
                x,
            ).contains(d) ==> final(visited)@.contains(d) || old(temp_visited)@.contains(d),
        forall|s: Set<usize>, x: usize|
            #![trigger s.contains(x), deps_closed(dependency_tracker@.dependencies, s)]
            deps_closed(dependency_tracker@.dependencies, s) && s.contains(tx_idx)
                && final(visited)@.contains(x) ==> s.contains(x) || old(visited)@.contains(x),
        forall|rank: spec_fn(usize) -> nat| #[trigger]
            is_rank(dependency_tracker@.dependencies, rank) && above(
                rank,
                old(temp_visited)@,
                tx_idx,
            ) ==> behind_its_deps(
                dependency_tracker@.dependencies,
                final(ordered)@,
                old(ordered)@.len() as int,
            ),
    decreases unvisited(old(temp_visited)@),
{
    let ghost deps = dependency_tracker@.dependencies;
    let ghost before = ordered@;
    let ghost seen = visited@;
    let ghost outer = temp_visited@;
    if temp_visited.contains(&tx_idx) {
        assert(ordered@.take(ordered@.len() as int) =~= ordered@);
        return ;
    }
    if visited.contains(&tx_idx) {
        assert(ordered@.take(ordered@.len() as int) =~= ordered@);
        return ;
    }
    proof {
        lemma_unvisited(outer, tx_idx);
    }
    temp_visited.insert(tx_idx);
    let dependencies = dependency_tracker.get_dependencies(tx_idx);
    let n = dependencies.len();
    assert(ordered@.take(before.len() as int) =~= before);
    for i in 0..n
        invariant
            dependency_tracker.wf(),
            deps == dependency_tracker@.dependencies,
            n == dependencies.order().len(),
            dependencies@ == deps_of(deps, tx_idx),
            outer == old(temp_visited)@,
            before == old(ordered)@,
            seen == old(visited)@,
            !outer.contains(tx_idx),
            unvisited(outer.insert(tx_idx)) < unvisited(outer),
            temp_visited@ == outer.insert(tx_idx),
            ordered@.no_duplicates(),
            ordered@.to_set() == visited@,
            visited@.disjoint(temp_visited@),
            before.len() <= ordered@.len(),
            ordered@.take(before.len() as int) == before,
            seen.subset_of(visited@),
            forall|j: int|
                0 <= j < i ==> visited@.contains(#[trigger] dependencies.order()[j])
                    || temp_visited@.contains(dependencies.order()[j]),
            forall|x: usize, d: usize| #[trigger]
                visited@.contains(x) && !seen.contains(x) && #[trigger] deps_of(deps, x).contains(d)
                    ==> visited@.contains(d) || temp_visited@.contains(d),
            forall|s: Set<usize>, x: usize|
                #![trigger s.contains(x), deps_closed(deps, s)]
                deps_closed(deps, s) && s.contains(tx_idx) && visited@.contains(x) ==> s.contains(x)
                    || seen.contains(x),
            forall|rank: spec_fn(usize) -> nat| #[trigger]
                is_rank(deps, rank) && above(rank, outer, tx_idx) ==> behind_its_deps(
                    deps,
                    ordered@,
                    before.len() as int,
                ),
    {
        let dep_tx = dependencies.at(i);
        let ghost ordered0 = ordered@;
        let ghost visited0 = visited@;
        topological_sort(dep_tx, dependency_tracker, ordered, visited, temp_visited);
        proof {
            assert(ordered@.take(before.len() as int) =~= ordered0.take(before.len() as int)) by {
                assert(ordered@.take(ordered0.len() as int).take(before.len() as int)
                    =~= ordered@.take(before.len() as int));
            }
            assert(deps_of(deps, tx_idx).contains(dep_tx));
            assert forall|x: usize, d: usize| #[trigger]
                visited@.contains(x) && !seen.contains(x) && #[trigger] deps_of(deps, x).contains(
                    d,
                ) implies visited@.contains(d) || temp_visited@.contains(d) by {
                if visited0.contains(x) {
                    assert(visited0.contains(d) || temp_visited@.contains(d));
                }
            }
            assert forall|s: Set<usize>, x: usize|
                #![trigger s.contains(x), deps_closed(deps, s)]
                deps_closed(deps, s) && s.contains(tx_idx) && visited@.contains(x) implies s.contains(
                x,
            ) || seen.contains(x) by {
                assert(s.contains(dep_tx));
            }
            assert forall|rank: spec_fn(usize) -> nat| #[trigger]
                is_rank(deps, rank) && above(rank, outer, tx_idx) implies behind_its_deps(
                deps,
                ordered@,
                before.len() as int,
            ) by {
                assert(rank(dep_tx) < rank(tx_idx));
                assert(above(rank, outer.insert(tx_idx), dep_tx));
                lemma_behind_extends(deps, ordered0, ordered@, before.len() as int);
            }
        }
    }
    let ghost ordered0 = ordered@;
    let ghost visited0 = visited@;
    temp_visited.remove(&tx_idx);
    visited.insert(tx_idx);
    ordered.push(tx_idx);
    proof {
        assert(temp_visited@ =~= outer);
        assert(!visited0.contains(tx_idx)) by {
            assert(outer.insert(tx_idx).contains(tx_idx));
        }
        assert(!ordered0.contains(tx_idx)) by {
            if ordered0.contains(tx_idx) {
                assert(ordered0.to_set().contains(tx_idx));
            }
        }
        ordered0.lemma_push_to_set_commute(tx_idx);
        assert(ordered@.take(before.len() as int) =~= ordered0.take(before.len() as int));
        assert forall|d: usize| deps_of(deps, tx_idx).contains(d) implies visited@.contains(d)
            || outer.contains(d) by {
            assert(dependencies@.contains(d));
            let j = dependencies.order().index_of(d);
            assert(dependencies.order()[j] == d);
        }
        assert forall|rank: spec_fn(usize) -> nat| #[trigger]
            is_rank(deps, rank) && above(rank, outer, tx_idx) implies behind_its_deps(
            deps,
            ordered@,
            before.len() as int,
        ) by {
            assert(ordered@.take(ordered0.len() as int) =~= ordered0);
            assert forall|i: int, d: usize|
                #![trigger stands_before(ordered@, i, d)]
                ordered0.len() <= i < ordered@.len() && deps_of(deps, ordered@[i]).contains(
                    d,
                ) implies stands_before(ordered@, i, d) by {
                assert(ordered@[i] == tx_idx);
                assert(rank(d) < rank(tx_idx));
                assert(dependencies@.contains(d));
                let j = dependencies.order().index_of(d);
                assert(dependencies.order()[j] == d);
                assert(!outer.contains(d));
                assert(visited0.contains(d));
                assert(ordered0.to_set().contains(d));
            }
            lemma_behind_extends(deps, ordered0, ordered@, before.len() as int);
        }
    }
}

/// Where the dependencies have no cycle, whatever a transaction depends on runs
/// before it.
pub proof fn law_dependencies_run_first(
    dependencies: Map<usize, Set<usize>>,
    queue: Set<usize>,
    order: Seq<usize>,
    rank: spec_fn(usize) -> nat,
    i: int,
    dependency: usize,
)
    requires
        is_reexecution_order(dependencies, queue, order),
        is_rank(dependencies, rank),
        0 <= i < order.len(),
        deps_of(dependencies, order[i]).contains(dependency),
    ensures
        exists|j: int| 0 <= j < i && order[j] == dependency,
{
    assert(stands_before(order, i, dependency));
    let j = order.take(i).index_of(dependency);
    assert(order.take(i)[j] == order[j]);
}

} // verus!
