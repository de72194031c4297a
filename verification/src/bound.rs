//! Why the bounds of a graph are bounds: no task that its route can carry is
//! through before the bound of the route.
use vstd::prelude::*;
use crate::graph::{length_of, narrowest, population_of, route_bound, Arc, NodeModel};
use crate::task::{lemma_units_needed_is_ceiling, units_needed, TaskModel};
use crate::validator::{entered, walk};

verus! {

/// The last unit of time during which a person of `task` is on `route`: the
/// last unit of the task's window, and the time to cross the route. A task
/// without people, on a route without length, has none, and the formula gives
/// the unit before its start.
pub open spec fn last_unit_on(route: Seq<Arc>, task: TaskModel) -> int {
    task.end() + length_of(route, route.len() as int) - 1
}

/// Whether `arc` can carry `task` where nothing else is on it: the rate of
/// the task where its window has more than one unit, and what leaves in its
/// last unit where it has one, are within the capacity of the arc.
pub open spec fn can_carry(arc: Arc, task: TaskModel) -> bool {
    &&& task.length >= 2 ==> task.rate <= arc.capacity
    &&& task.length >= 1 ==> task.last_unit_demand() <= arc.capacity
}

/// A task that is walked to the end of a route can be carried by each arc
/// that it crossed.
proof fn lemma_walk_can_carry(
    ledgers: Map<Arc, Seq<TaskModel>>,
    route: Seq<Arc>,
    k: int,
    task: TaskModel,
    m: int,
)
    requires
        0 <= k <= m < route.len(),
        walk(ledgers, route, k, task).outcome is Completed,
    ensures
        can_carry(route[m], task),
    decreases route.len() - k,
{
    let arc = route[k];
    if k == m {
        if task.length >= 1 {
            assert(task.active_at(task.start as int));
            assert(task.active_at(task.end() - 1));
        }
    } else {
        let later = task.delayed(arc.length as nat);
        lemma_walk_can_carry(entered(ledgers, arc, task), route, k + 1, later, m);
    }
}

/// What every arc of a route can carry, its narrowest arc can carry.
proof fn lemma_within_narrowest(route: Seq<Arc>, n: int, amount: nat)
    requires
        0 <= n <= route.len(),
        amount <= u64::MAX,
        forall|m: int| 0 <= m < n ==> amount <= (#[trigger] route[m]).capacity,
    ensures
        amount <= narrowest(route, n),
    decreases n,
{
    if n > 0 {
        lemma_within_narrowest(route, n - 1, amount);
    }
}

/// A task whose rate and last unit are within a capacity has a window of at
/// least as many units as its people need at that capacity.
proof fn lemma_length_at_capacity(task: TaskModel, capacity: nat)
    requires
        task.wf(),
        capacity > 0,
        task.length >= 2 ==> task.rate <= capacity,
        task.length >= 1 ==> task.last_unit_demand() <= capacity,
    ensures
        task.length >= units_needed(task.people, capacity),
{
    let people = task.people;
    let rate = task.rate;
    let length = task.length;
    lemma_units_needed_is_ceiling(people, rate);
    lemma_units_needed_is_ceiling(people, capacity);
    assert(length * capacity >= people) by {
        if length >= 2 {
            assert(length * capacity >= length * rate) by (nonlinear_arith)
                requires
                    rate <= capacity,
            ;
        } else if length == 1 {
            assert(people <= rate) by (nonlinear_arith)
                requires
                    length * rate >= people,
                    length == 1,
            ;
            if people % rate > 0 {
                assert(people % rate == people) by (nonlinear_arith)
                    requires
                        people <= rate,
                        people % rate > 0,
                        rate > 0,
                ;
            }
        } else {
            assert(length * capacity == 0) by (nonlinear_arith)
                requires
                    length == 0,
            ;
        }
    }
}

/// No task is through before the bound of its route: a task for all the
/// people of the node at which a route starts, walked to the end of the
/// route, still has people on the route during the unit that is the bound of
/// the route, or later.
pub proof fn lemma_bound_is_met(
    nodes: Map<u64, NodeModel>,
    ledgers: Map<Arc, Seq<TaskModel>>,
    route: Seq<Arc>,
    task: TaskModel,
)
    requires
        task.wf(),
        population_of(nodes, route) == Some(task.people as u64),
        walk(ledgers, route, 0, task).outcome is Completed,
        route_bound(nodes, route) is Some,
    ensures
        route_bound(nodes, route)->Some_0 <= last_unit_on(route, task),
{
    let n = route.len() as int;
    let narrow = narrowest(route, n);
    assert forall|m: int| 0 <= m < n implies can_carry(#[trigger] route[m], task) by {
        lemma_walk_can_carry(ledgers, route, 0, task, m);
    }
    if task.length >= 2 {
        lemma_within_narrowest(route, n, task.rate);
    }
    if task.length >= 1 {
        assert(task.last_unit_demand() <= task.rate) by (nonlinear_arith)
            requires
                task.rate > 0,
                task.last_unit_demand() == if task.people % task.rate > 0 {
                    task.people % task.rate
                } else {
                    task.rate
                },
        ;
        lemma_within_narrowest(route, n, task.last_unit_demand());
    }
    lemma_length_at_capacity(task, narrow);
}

} // verus!
