//! What validity means: the demand that a schedule puts on each arc.
//!
//! Validation walks task after task along its route and asks ledger after
//! ledger. This module says what the answer amounts to, without ledgers and
//! without an order: a schedule is valid exactly when, on every arc and at
//! every unit of time, the people that all its tasks together bring to the arc
//! are no more than the arc can carry.
use vstd::prelude::*;
use crate::graph::{length_of, Arc};
use crate::resource::{admissible, lemma_load_of_push, load_at};
use crate::solution::{pass_from, task_of, validation};
use crate::task::TaskModel;
use crate::error::Error;
use crate::validator::{
    capacities_respected, entered, ledger_of, lemma_walk_respects_capacities, walk,
};

verus! {

/// `task` as it reaches arc `k` of `route`: later by the time that it takes
/// to cross the arcs before.
pub open spec fn placed(route: Seq<Arc>, task: TaskModel, k: int) -> TaskModel {
    task.delayed(length_of(route, k))
}

/// The number of people that `task` brings to `arc` during unit `t` on the
/// first `n` arcs of `route`: its demand as it reaches each of them that is
/// `arc`.
pub open spec fn route_demand(route: Seq<Arc>, task: TaskModel, arc: Arc, t: int, n: int) -> nat
    decreases n,
{
    if n <= 0 || n > route.len() {
        0
    } else if route[n - 1] == arc {
        route_demand(route, task, arc, t, n - 1) + placed(route, task, n - 1).demand_at(t)
    } else {
        route_demand(route, task, arc, t, n - 1)
    }
}

/// The task that walks along `route`: that of the node at which the route
/// starts, and none for a route without arcs.
pub open spec fn serving(tasks: Seq<TaskModel>, route: Seq<Arc>) -> Option<TaskModel> {
    if route.len() == 0 {
        None
    } else {
        task_of(tasks, route[0].start_id)
    }
}

/// The number of people that `tasks` bring to `arc` during unit `t` along one
/// route.
pub open spec fn demand_along(tasks: Seq<TaskModel>, route: Seq<Arc>, arc: Arc, t: int) -> nat {
    match serving(tasks, route) {
        Some(task) => route_demand(route, task, arc, t, route.len() as int),
        None => 0,
    }
}

/// The number of people that `tasks` bring to `arc` during unit `t` along the
/// first `n` of `routes`.
pub open spec fn demand_on(
    routes: Seq<Seq<Arc>>,
    tasks: Seq<TaskModel>,
    arc: Arc,
    t: int,
    n: int,
) -> nat
    decreases n,
{
    if n <= 0 || n > routes.len() {
        0
    } else {
        demand_on(routes, tasks, arc, t, n - 1) + demand_along(tasks, routes[n - 1], arc, t)
    }
}

/// Whether `tasks`, each along its route, bring more people to `arc` during
/// unit `t` than the arc can carry.
pub open spec fn overloaded_at(
    routes: Seq<Seq<Arc>>,
    tasks: Seq<TaskModel>,
    arc: Arc,
    t: int,
) -> bool {
    demand_on(routes, tasks, arc, t, routes.len() as int) > arc.capacity
}

/// Whether no arc is ever overloaded.
pub open spec fn never_overloaded(routes: Seq<Seq<Arc>>, tasks: Seq<TaskModel>) -> bool {
    forall|arc: Arc, t: int| !overloaded_at(routes, tasks, arc, t)
}

/// Whether the ledgers hold, on every arc and at every unit, the load
/// `base` and what `task` brings on the first `k` arcs of `route`.
pub open spec fn holds_demand(
    ledgers: Map<Arc, Seq<TaskModel>>,
    base: spec_fn(Arc, int) -> nat,
    route: Seq<Arc>,
    task: TaskModel,
    k: int,
) -> bool {
    forall|arc: Arc, t: int| #[trigger]
        load_at(ledger_of(ledgers, arc), t) == base(arc, t) + route_demand(route, task, arc, t, k)
}

/// The demand along a route grows with the number of its arcs.
proof fn lemma_route_demand_grows(
    route: Seq<Arc>,
    task: TaskModel,
    arc: Arc,
    t: int,
    m: int,
    n: int,
)
    requires
        0 <= m <= n <= route.len(),
    ensures
        route_demand(route, task, arc, t, m) <= route_demand(route, task, arc, t, n),
    decreases n - m,
{
    if m < n {
        lemma_route_demand_grows(route, task, arc, t, m, n - 1);
    }
}

/// The demand on an arc grows with the number of routes.
proof fn lemma_demand_on_grows(
    routes: Seq<Seq<Arc>>,
    tasks: Seq<TaskModel>,
    arc: Arc,
    t: int,
    m: int,
    n: int,
)
    requires
        0 <= m <= n <= routes.len(),
    ensures
        demand_on(routes, tasks, arc, t, m) <= demand_on(routes, tasks, arc, t, n),
    decreases n - m,
{
    if m < n {
        lemma_demand_on_grows(routes, tasks, arc, t, m, n - 1);
    }
}

/// A walk that is completed leaves in the ledgers what the task brings along
/// the whole route; a walk that is rejected shows an arc and a unit at which
/// the route asks for more than the arc can carry.
proof fn lemma_walk_demand(
    ledgers: Map<Arc, Seq<TaskModel>>,
    base: spec_fn(Arc, int) -> nat,
    route: Seq<Arc>,
    task: TaskModel,
    k: int,
) -> (witness: (Arc, int))
    requires
        0 <= k <= route.len(),
        holds_demand(ledgers, base, route, task, k),
    ensures
        walk(ledgers, route, k, placed(route, task, k)).outcome is Completed ==> holds_demand(
            walk(ledgers, route, k, placed(route, task, k)).ledgers,
            base,
            route,
            task,
            route.len() as int,
        ),
        walk(ledgers, route, k, placed(route, task, k)).outcome is Rejected ==> base(
            witness.0,
            witness.1,
        ) + route_demand(route, task, witness.0, witness.1, route.len() as int)
            > witness.0.capacity,
    decreases route.len() - k,
{
    let current = placed(route, task, k);
    if k < route.len() && current.end() <= u64::MAX {
        let arc = route[k];
        let resident = ledger_of(ledgers, arc);
        if !admissible(resident, current, arc.capacity as nat) {
            let t = choose|t: int| #[trigger]
                current.active_at(t) && current.demand_at(t) + load_at(resident, t)
                    > arc.capacity;
            assert(load_at(ledger_of(ledgers, arc), t) == base(arc, t) + route_demand(
                route,
                task,
                arc,
                t,
                k,
            ));
            lemma_route_demand_grows(route, task, arc, t, k + 1, route.len() as int);
            (arc, t)
        } else {
            let next = entered(ledgers, arc, current);
            assert(holds_demand(next, base, route, task, k + 1)) by {
                assert forall|other: Arc, t: int| #[trigger]
                    load_at(ledger_of(next, other), t) == base(other, t) + route_demand(
                        route,
                        task,
                        other,
                        t,
                        k + 1,
                    ) by {
                    assert(load_at(ledger_of(ledgers, other), t) == base(other, t) + route_demand(
                        route,
                        task,
                        other,
                        t,
                        k,
                    ));
                    if other == arc {
                        lemma_load_of_push(resident, current, t);
                    } else {
                        assert(ledger_of(next, other) == ledger_of(ledgers, other));
                    }
                }
            }
            assert(placed(route, task, k + 1) == current.delayed(arc.length as nat));
            lemma_walk_demand(next, base, route, task, k + 1)
        }
    } else {
        (arbitrary(), 0)
    }
}

/// Whether the ledgers hold, on every arc and at every unit, what `tasks`
/// bring along the first `n` of `routes`.
pub open spec fn holds_routes(
    ledgers: Map<Arc, Seq<TaskModel>>,
    routes: Seq<Seq<Arc>>,
    tasks: Seq<TaskModel>,
    n: int,
) -> bool {
    forall|arc: Arc, t: int| #[trigger]
        load_at(ledger_of(ledgers, arc), t) == demand_on(routes, tasks, arc, t, n)
}

/// A pass that finds a schedule valid has met no overload, and a pass that
/// finds it invalid has met one.
proof fn lemma_pass_demand(
    ledgers: Map<Arc, Seq<TaskModel>>,
    routes: Seq<Seq<Arc>>,
    i: int,
    tasks: Seq<TaskModel>,
)
    requires
        0 <= i <= routes.len(),
        holds_routes(ledgers, routes, tasks, i),
        capacities_respected(ledgers),
    ensures
        pass_from(ledgers, routes, i, tasks).verdict == Ok::<bool, Error>(true)
            ==> never_overloaded(routes, tasks),
        pass_from(ledgers, routes, i, tasks).verdict == Ok::<bool, Error>(false)
            ==> !never_overloaded(routes, tasks),
    decreases routes.len() - i,
{
    if i == routes.len() {
        assert forall|arc: Arc, t: int| !overloaded_at(routes, tasks, arc, t) by {
            assert(load_at(ledger_of(ledgers, arc), t) == demand_on(routes, tasks, arc, t, i));
        }
    } else {
        let route = routes[i];
        if route.len() == 0 {
            lemma_pass_demand(ledgers, routes, i + 1, tasks);
        } else {
            match task_of(tasks, route[0].start_id) {
                None => {},
                Some(task) => {
                    let base = |arc: Arc, t: int| demand_on(routes, tasks, arc, t, i);
                    let witness = lemma_walk_demand(ledgers, base, route, task, 0);
                    let walked = walk(ledgers, route, 0, task);
                    if walked.outcome is Completed {
                        lemma_walk_respects_capacities(ledgers, route, 0, task);
                        lemma_pass_demand(walked.ledgers, routes, i + 1, tasks);
                    } else if walked.outcome is Rejected {
                        let (arc, t) = witness;
                        lemma_demand_on_grows(routes, tasks, arc, t, i + 1, routes.len() as int);
                        assert(overloaded_at(routes, tasks, arc, t));
                    }
                },
            }
        }
    }
}

/// A schedule is found valid only if no arc is ever overloaded, and found
/// invalid only if an arc is overloaded at some unit of time: where
/// validation has a finding, the finding is whether the people that all tasks
/// together bring to each arc, at each unit, are no more than the arc can
/// carry.
pub proof fn lemma_validity_is_absence_of_overload(routes: Seq<Seq<Arc>>, tasks: Seq<TaskModel>)
    ensures
        validation(routes, tasks).verdict matches Ok(valid) ==> valid == never_overloaded(
            routes,
            tasks,
        ),
{
    let empty = Map::<Arc, Seq<TaskModel>>::empty();
    lemma_pass_demand(empty, routes, 0, tasks);
}

} // verus!
