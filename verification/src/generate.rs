//! The making of a schedule that a graph can carry.
//!
//! The routes are taken in the order of their declaration. A node that has
//! no task yet gets one at the largest rate that its own limit and every arc
//! of its route allow. The task starts at once if the arcs can carry it then,
//! and otherwise at the horizon: the latest end among the tasks on the last
//! arcs of the routes taken so far. Each task is walked along its route with
//! the ledgers of the routes before it, so what is made has been validated
//! as it was made.
use vstd::prelude::*;
use crate::error::Error;
use crate::graph::{
    narrowest, narrowest_capacity, population_of, route_seqs, Arc, Graph, NodeModel,
};
use crate::resource::{admissible, latest_end, lemma_latest_end_bounds, load_at};
use crate::solution::{
    lemma_task_from, pass_from, task_from, task_of, validation, Solution, SolutionModel,
};
use crate::task::{made, Task, TaskModel};
use crate::validator::{entered, ledger_of, walk, Outcome, Validator};

verus! {

/// A schedule in the making: the ledgers and the tasks so far, and the
/// horizon.
pub struct Draft {
    pub ledgers: Map<Arc, Seq<TaskModel>>,
    pub tasks: Seq<TaskModel>,
    pub horizon: nat,
}

/// The rate at which the node at the start of `route` lets its people go:
/// the smallest capacity along the route, or the largest rate of the node
/// where that is less.
pub open spec fn rate_along(nodes: Map<u64, NodeModel>, route: Seq<Arc>) -> u64 {
    let narrow = narrowest(route, route.len() as int) as u64;
    match nodes[route[0].start_id].max_rate {
        Some(rate) => if rate < narrow {
            rate
        } else {
            narrow
        },
        None => narrow,
    }
}

/// The task that is made for the node at the start of `route`: one that
/// starts at once if the ledgers can carry it along the route, and one that
/// starts at the horizon if not.
pub open spec fn new_task(nodes: Map<u64, NodeModel>, draft: Draft, route: Seq<Arc>) -> Result<
    TaskModel,
    Error,
> {
    let node = route[0].start_id;
    match population_of(nodes, route) {
        None => Err(Error::MissingNode { id: node }),
        Some(people) => {
            let rate = rate_along(nodes, route);
            match made(node, people, rate, 0, false) {
                Err(error) => Err(error),
                Ok(early) => if walk(draft.ledgers, route, 0, early).outcome is Completed {
                    Ok(early)
                } else {
                    made(node, people, rate, draft.horizon, false)
                },
            }
        },
    }
}

/// The draft after `task` has walked along `route`, or the reason why it
/// could not: an arc that cannot carry it, or a window that does not fit.
pub open spec fn settled(
    draft: Draft,
    route: Seq<Arc>,
    task: TaskModel,
    tasks: Seq<TaskModel>,
) -> Result<Draft, Error> {
    let walked = walk(draft.ledgers, route, 0, task);
    match walked.outcome {
        Outcome::Completed => {
            let end = latest_end(ledger_of(walked.ledgers, route.last()));
            Ok(
                Draft {
                    ledgers: walked.ledgers,
                    tasks,
                    horizon: if end > draft.horizon {
                        end
                    } else {
                        draft.horizon
                    },
                },
            )
        },
        Outcome::Rejected => Err(Error::CapacityExceeded { node_id: task.node }),
        Outcome::Overflow => Err(Error::TimeOverflow { node_id: task.node }),
    }
}

/// The draft after one route more. A route without arcs changes nothing; a
/// route from a node that has a task has that task walk along it; any other
/// route has a new task made and walked.
pub open spec fn extended(nodes: Map<u64, NodeModel>, draft: Draft, route: Seq<Arc>) -> Result<
    Draft,
    Error,
> {
    if route.len() == 0 {
        Ok(draft)
    } else {
        match task_of(draft.tasks, route[0].start_id) {
            Some(task) => settled(draft, route, task, draft.tasks),
            None => match new_task(nodes, draft, route) {
                Err(error) => Err(error),
                Ok(task) => settled(draft, route, task, draft.tasks.push(task)),
            },
        }
    }
}

/// The draft after the first `n` of `routes`, or the first error.
pub open spec fn drafted(nodes: Map<u64, NodeModel>, routes: Seq<Seq<Arc>>, n: int) -> Result<
    Draft,
    Error,
>
    decreases n,
{
    if n <= 0 || n > routes.len() {
        Ok(Draft { ledgers: Map::empty(), tasks: Seq::empty(), horizon: 0 })
    } else {
        match drafted(nodes, routes, n - 1) {
            Err(error) => Err(error),
            Ok(draft) => extended(nodes, draft, routes[n - 1]),
        }
    }
}

/// The schedule that is made of the tasks of a draft: it names no graph and
/// no method, and it is valid.
pub open spec fn schedule_of(tasks: Seq<TaskModel>) -> SolutionModel {
    SolutionModel {
        graph_name: Seq::empty(),
        nb_of_evac_nodes: tasks.len() as u64,
        tasks,
        is_valid: true,
        obj_value: 0,
        evaluation_time: 0,
        method: Seq::empty(),
        comment: Seq::empty(),
    }
}

/// The error of the first routes is the error of all.
proof fn lemma_drafted_fails(nodes: Map<u64, NodeModel>, routes: Seq<Seq<Arc>>, m: int, n: int)
    requires
        0 <= m <= n <= routes.len(),
        drafted(nodes, routes, m) is Err,
    ensures
        drafted(nodes, routes, n) == drafted(nodes, routes, m),
    decreases n - m,
{
    if m < n {
        lemma_drafted_fails(nodes, routes, m, n - 1);
    }
}

/// Whether `tasks` begin with `few`.
pub open spec fn begins_with(tasks: Seq<TaskModel>, few: Seq<TaskModel>) -> bool {
    few.len() <= tasks.len() && tasks.take(few.len() as int) == few
}

/// A task that is found among the first tasks is found among all.
proof fn lemma_task_from_begin(tasks: Seq<TaskModel>, few: Seq<TaskModel>, node: u64, i: int)
    requires
        begins_with(tasks, few),
        0 <= i,
        task_from(few, node, i) is Some,
    ensures
        task_from(tasks, node, i) == task_from(few, node, i),
    decreases few.len() - i,
{
    if few[i].node != node {
        lemma_task_from_begin(tasks, few, node, i + 1);
    }
}

/// A node without a task has the task that is put behind the others.
proof fn lemma_task_from_push(tasks: Seq<TaskModel>, task: TaskModel, i: int)
    requires
        0 <= i <= tasks.len(),
        task_from(tasks, task.node, i) is None,
    ensures
        task_from(tasks.push(task), task.node, i) == Some(task),
    decreases tasks.len() - i,
{
    if i < tasks.len() {
        lemma_task_from_push(tasks, task, i + 1);
    }
}

/// Whether the validation of any tasks that begin with `few` has come, after
/// the first `n` routes, to these ledgers without a finding.
pub open spec fn validated_so_far(
    ledgers: Map<Arc, Seq<TaskModel>>,
    routes: Seq<Seq<Arc>>,
    n: int,
    few: Seq<TaskModel>,
) -> bool {
    forall|tasks: Seq<TaskModel>|
        begins_with(tasks, few) ==> #[trigger] validation(routes, tasks) == pass_from(
            ledgers,
            routes,
            n,
            tasks,
        )
}

/// One route more that is walked to its end by the task of its node is one
/// route more in the validation.
proof fn lemma_validated_step(
    ledgers: Map<Arc, Seq<TaskModel>>,
    routes: Seq<Seq<Arc>>,
    n: int,
    before: Seq<TaskModel>,
    after: Seq<TaskModel>,
    task: TaskModel,
)
    requires
        0 <= n < routes.len(),
        routes[n].len() > 0,
        validated_so_far(ledgers, routes, n, before),
        begins_with(after, before),
        task_of(after, routes[n][0].start_id) == Some(task),
        walk(ledgers, routes[n], 0, task).outcome is Completed,
    ensures
        validated_so_far(walk(ledgers, routes[n], 0, task).ledgers, routes, n + 1, after),
{
    let next = walk(ledgers, routes[n], 0, task).ledgers;
    assert forall|tasks: Seq<TaskModel>| begins_with(tasks, after) implies #[trigger] validation(
        routes,
        tasks,
    ) == pass_from(next, routes, n + 1, tasks) by {
        assert(begins_with(tasks, before)) by {
            assert(tasks.take(before.len() as int) =~= tasks.take(after.len() as int).take(
                before.len() as int,
            ));
        }
        lemma_task_from_begin(tasks, after, routes[n][0].start_id, 0);
    }
}

/// Whether no arc stands twice in `route`.
pub open spec fn crosses_no_arc_twice(route: Seq<Arc>) -> bool {
    forall|k: int, l: int| 0 <= k < l < route.len() ==> route[k] != route[l]
}

/// Whether no two of `routes` start at the same node.
pub open spec fn starts_differ(routes: Seq<Seq<Arc>>) -> bool {
    forall|i: int, j: int|
        0 <= i < j < routes.len() && routes[i].len() > 0 && routes[j].len() > 0 ==> (
        #[trigger] routes[i])[0].start_id != (#[trigger] routes[j])[0].start_id
}

/// Whether every task in the ledgers has ended by `time`.
pub open spec fn free_from(ledgers: Map<Arc, Seq<TaskModel>>, time: nat) -> bool {
    forall|arc: Arc, j: int|
        0 <= j < ledger_of(ledgers, arc).len() ==> (#[trigger] ledger_of(ledgers, arc)[j]).end()
            <= time
}

/// Whether each of `tasks` evacuates the node at which one of the first `n`
/// routes starts.
pub open spec fn serve_routes(tasks: Seq<TaskModel>, routes: Seq<Seq<Arc>>, n: int) -> bool {
    forall|j: int|
        0 <= j < tasks.len() ==> exists|i: int|
            0 <= i < n && i < routes.len() && routes[i].len() > 0 && (
            #[trigger] routes[i])[0].start_id == (#[trigger] tasks[j]).node
}

/// Tasks that have ended put nothing on an arc.
proof fn lemma_load_after_end(tasks: Seq<TaskModel>, t: int)
    requires
        forall|j: int| 0 <= j < tasks.len() ==> (#[trigger] tasks[j]).end() <= t,
    ensures
        load_at(tasks, t) == 0,
    decreases tasks.len(),
{
    if tasks.len() > 0 {
        lemma_load_after_end(tasks.drop_last(), t);
    }
}

/// The smallest capacity along a route is at most the capacity of each arc.
proof fn lemma_narrowest_bounds(route: Seq<Arc>, n: int, k: int)
    requires
        0 <= k < n <= route.len(),
    ensures
        narrowest(route, n) <= route[k].capacity,
    decreases n,
{
    if k < n - 1 {
        lemma_narrowest_bounds(route, n - 1, k);
    }
}

/// A task that starts when the arcs still before it are free, at a rate that
/// each of them can carry, is rejected by none of them, if none of them comes
/// twice.
proof fn lemma_walk_when_free(
    ledgers: Map<Arc, Seq<TaskModel>>,
    route: Seq<Arc>,
    k: int,
    task: TaskModel,
)
    requires
        0 <= k <= route.len(),
        crosses_no_arc_twice(route),
        task.rate > 0,
        forall|m: int| k <= m < route.len() ==> task.rate <= (#[trigger] route[m]).capacity,
        forall|m: int, j: int|
            k <= m < route.len() && 0 <= j < ledger_of(ledgers, route[m]).len() ==> (
            #[trigger] ledger_of(ledgers, route[m])[j]).end() <= task.start,
    ensures
        !(walk(ledgers, route, k, task).outcome is Rejected),
    decreases route.len() - k,
{
    if k < route.len() && task.end() <= u64::MAX {
        let arc = route[k];
        let resident = ledger_of(ledgers, arc);
        assert(admissible(resident, task, arc.capacity as nat)) by {
            assert forall|t: int| #[trigger] task.active_at(t) implies task.demand_at(t) + load_at(
                resident,
                t,
            ) <= arc.capacity by {
                lemma_load_after_end(resident, t);
            }
        }
        let next = entered(ledgers, arc, task);
        let later = task.delayed(arc.length as nat);
        assert forall|m: int, j: int|
            k + 1 <= m < route.len() && 0 <= j < ledger_of(next, route[m]).len() implies (
        #[trigger] ledger_of(next, route[m])[j]).end() <= later.start by {
            assert(ledger_of(next, route[m]) == ledger_of(ledgers, route[m]));
        }
        lemma_walk_when_free(next, route, k + 1, later);
    }
}

/// After a walk that was completed, every task in the ledgers has ended by
/// `time` or by the latest end on the last arc of the route, if before the
/// walk each had ended by `time` or by the end of the task that walks.
proof fn lemma_walk_keeps_free(
    ledgers: Map<Arc, Seq<TaskModel>>,
    route: Seq<Arc>,
    k: int,
    task: TaskModel,
    time: nat,
)
    requires
        0 <= k < route.len(),
        forall|arc: Arc, j: int|
            0 <= j < ledger_of(ledgers, arc).len() ==> (#[trigger] ledger_of(ledgers, arc)[j]).end()
                <= time || ledger_of(ledgers, arc)[j].end() <= task.end(),
        walk(ledgers, route, k, task).outcome is Completed,
    ensures
        ({
            let after = walk(ledgers, route, k, task).ledgers;
            let end = latest_end(ledger_of(after, route.last()));
            free_from(
                after,
                if end > time {
                    end
                } else {
                    time
                },
            )
        }),
    decreases route.len() - k,
{
    let arc = route[k];
    let next = entered(ledgers, arc, task);
    let later = task.delayed(arc.length as nat);
    let after = walk(ledgers, route, k, task).ledgers;
    let end = latest_end(ledger_of(after, route.last()));
    let bound = if end > time {
        end
    } else {
        time
    };
    assert forall|other: Arc, j: int| 0 <= j < ledger_of(next, other).len() implies (
    #[trigger] ledger_of(next, other)[j]).end() <= time || ledger_of(next, other)[j].end()
        <= task.end() by {
        if other == arc {
            if j < ledger_of(ledgers, arc).len() {
                assert(ledger_of(next, other)[j] == ledger_of(ledgers, arc)[j]);
            }
        } else {
            assert(ledger_of(next, other) == ledger_of(ledgers, other));
        }
    }
    if k + 1 < route.len() {
        assert forall|other: Arc, j: int| 0 <= j < ledger_of(next, other).len() implies (
        #[trigger] ledger_of(next, other)[j]).end() <= time || ledger_of(next, other)[j].end()
            <= later.end() by {
            assert(ledger_of(next, other)[j].end() <= time || ledger_of(next, other)[j].end()
                <= task.end());
        }
        lemma_walk_keeps_free(next, route, k + 1, later, time);
    } else {
        assert(after == next);
        assert(route.last() == arc);
        let resident = ledger_of(next, arc);
        assert(resident.last() == task);
        lemma_latest_end_bounds(resident, resident.len() - 1);
        assert forall|other: Arc, j: int| 0 <= j < ledger_of(after, other).len() implies (
        #[trigger] ledger_of(after, other)[j]).end() <= bound by {
            assert(ledger_of(next, other)[j].end() <= time || ledger_of(next, other)[j].end()
                <= task.end());
        }
    }
}

/// Where no route crosses an arc twice and no two routes start at the same
/// node, a draft has every task ended by its horizon, and has tasks only for
/// the nodes at which its routes start.
proof fn lemma_drafted_is_free(nodes: Map<u64, NodeModel>, routes: Seq<Seq<Arc>>, n: int)
    requires
        0 <= n <= routes.len(),
        starts_differ(routes),
        forall|i: int| 0 <= i < routes.len() ==> crosses_no_arc_twice(#[trigger] routes[i]),
    ensures
        drafted(nodes, routes, n) matches Ok(draft) ==> free_from(draft.ledgers, draft.horizon)
            && serve_routes(draft.tasks, routes, n),
        !(drafted(nodes, routes, n) matches Err(Error::CapacityExceeded { .. })),
    decreases n,
{
    if n > 0 {
        lemma_drafted_is_free(nodes, routes, n - 1);
        match drafted(nodes, routes, n - 1) {
            Err(_) => {},
            Ok(draft) => {
                let route = routes[n - 1];
                assert(crosses_no_arc_twice(route));
                if route.len() > 0 {
                    let node = route[0].start_id;
                    assert(task_of(draft.tasks, node) is None) by {
                        if task_of(draft.tasks, node) is Some {
                            lemma_task_from(draft.tasks, node, 0);
                            let found = task_of(draft.tasks, node)->Some_0;
                            let j = choose|j: int|
                                0 <= j < draft.tasks.len() && draft.tasks[j] == found;
                            let i = choose|i: int|
                                0 <= i < n - 1 && i < routes.len() && routes[i].len() > 0 && (
                                #[trigger] routes[i])[0].start_id == draft.tasks[j].node;
                            assert(routes[i][0].start_id != routes[n - 1][0].start_id);
                        }
                    }
                    match new_task(nodes, draft, route) {
                        Err(_) => {},
                        Ok(task) => {
                            let people = population_of(nodes, route)->Some_0;
                            let rate = rate_along(nodes, route);
                            let early = made(node, people, rate, 0, false)->Ok_0;
                            assert(task.rate == rate && rate > 0);
                            assert forall|m: int| 0 <= m < route.len() implies task.rate <= (
                            #[trigger] route[m]).capacity by {
                                lemma_narrowest_bounds(route, route.len() as int, m);
                            }
                            if !(walk(draft.ledgers, route, 0, early).outcome is Completed) {
                                assert(task.start == draft.horizon);
                                assert forall|m: int, j: int|
                                    0 <= m < route.len() && 0 <= j < ledger_of(
                                        draft.ledgers,
                                        route[m],
                                    ).len() implies (#[trigger] ledger_of(
                                    draft.ledgers,
                                    route[m],
                                )[j]).end() <= task.start by {}
                                lemma_walk_when_free(draft.ledgers, route, 0, task);
                            }
                            let walked = walk(draft.ledgers, route, 0, task);
                            if walked.outcome is Completed {
                                lemma_walk_keeps_free(
                                    draft.ledgers,
                                    route,
                                    0,
                                    task,
                                    draft.horizon,
                                );
                                let after = settled(
                                    draft,
                                    route,
                                    task,
                                    draft.tasks.push(task),
                                )->Ok_0;
                                assert(serve_routes(after.tasks, routes, n)) by {
                                    assert forall|j: int| 0 <= j < after.tasks.len() implies exists|
                                        i: int,
                                    |
                                        0 <= i < n && i < routes.len() && routes[i].len() > 0 && (
                                        #[trigger] routes[i])[0].start_id == (
                                        #[trigger] after.tasks[j]).node by {
                                        if j < draft.tasks.len() {
                                            assert(after.tasks[j] == draft.tasks[j]);
                                            let i = choose|i: int|
                                                0 <= i < n - 1 && i < routes.len()
                                                    && routes[i].len() > 0 && (
                                                #[trigger] routes[i])[0].start_id
                                                    == draft.tasks[j].node;
                                            assert(routes[i][0].start_id == after.tasks[j].node);
                                        } else {
                                            assert(routes[n - 1][0].start_id
                                                == after.tasks[j].node);
                                        }
                                    }
                                }
                            }
                        },
                    }
                } else {
                    assert(serve_routes(draft.tasks, routes, n)) by {
                        assert forall|j: int| 0 <= j < draft.tasks.len() implies exists|i: int|
                            0 <= i < n && i < routes.len() && routes[i].len() > 0 && (
                            #[trigger] routes[i])[0].start_id == (
                            #[trigger] draft.tasks[j]).node by {
                            let i = choose|i: int|
                                0 <= i < n - 1 && i < routes.len() && routes[i].len() > 0 && (
                                #[trigger] routes[i])[0].start_id == draft.tasks[j].node;
                            assert(routes[i][0].start_id == draft.tasks[j].node);
                        }
                    }
                }
            },
        }
    } else {
        let draft = drafted(nodes, routes, n)->Ok_0;
        assert(draft.ledgers =~= Map::<Arc, Seq<TaskModel>>::empty());
    }
}

/// Where no route crosses an arc twice and no two routes start at the same
/// node, a schedule is made unless a node has no population, a rate is zero
/// or a window does not fit: the horizon is a start at which the arcs can
/// carry any task that they can carry at all.
pub proof fn lemma_generation_finds_a_start(nodes: Map<u64, NodeModel>, routes: Seq<Seq<Arc>>)
    requires
        starts_differ(routes),
        forall|i: int| 0 <= i < routes.len() ==> crosses_no_arc_twice(#[trigger] routes[i]),
    ensures
        !(drafted(nodes, routes, routes.len() as int) matches Err(
            Error::CapacityExceeded { .. },
        )),
{
    lemma_drafted_is_free(nodes, routes, routes.len() as int);
}

impl Graph {
    /// Makes a schedule that the graph can carry.
    ///
    /// The routes are taken in the order of their declaration. A route from
    /// a node that has no task yet gets a task for all the people of the
    /// node, at the smallest capacity along the route or at the largest rate
    /// of the node where that is less. The task starts at time zero if every
    /// arc of the route can carry it then, and else at the horizon: the
    /// latest end among the tasks on the last arcs of the routes taken so
    /// far. A second route from a node has the task of the node walk along
    /// it as well.
    ///
    /// What is returned has been walked route by route as it was made, so a
    /// check of it against this graph finds it valid. No schedule is made
    /// where a route starts at a node without population, where a rate would
    /// be zero, where a window does not fit in 64 bits, or where an arc
    /// cannot carry a task even at the horizon.
    pub fn generate_solution(&self) -> (result: Result<Solution, Error>)
        ensures
            match result {
                Ok(solution) => {
                    &&& drafted(self@.nodes, self@.routes, self@.routes.len() as int) matches Ok(
                        draft,
                    )
                    &&& solution@ == schedule_of(draft.tasks)
                    &&& validation(self@.routes, solution@.tasks).verdict == Ok::<bool, Error>(
                        true,
                    )
                },
                Err(error) => drafted(self@.nodes, self@.routes, self@.routes.len() as int)
                    == Err::<Draft, Error>(error),
            },
    {
        let routes: &Vec<Vec<Arc>> = self.routes();
        let ghost all = self@.routes;
        let ghost nodes = self@.nodes;
        let mut validator = Validator::new();
        let mut solution = Solution::new();
        let mut horizon: u64 = 0;
        let mut i: usize = 0;
        while i < routes.len()
            invariant
                i <= routes.len(),
                all == route_seqs(routes@),
                all == self@.routes,
                nodes == self@.nodes,
                drafted(nodes, all, i as int) == Ok::<Draft, Error>(
                    Draft { ledgers: validator@, tasks: solution@.tasks, horizon: horizon as nat },
                ),
                validated_so_far(validator@, all, i as int, solution@.tasks),
            decreases routes.len() - i,
        {
            let route: &Vec<Arc> = &routes[i];
            let ghost draft = Draft {
                ledgers: validator@,
                tasks: solution@.tasks,
                horizon: horizon as nat,
            };
            proof {
                if extended(nodes, draft, route@) is Err {
                    lemma_drafted_fails(nodes, all, i + 1, all.len() as int);
                }
            }
            if route.len() > 0 {
                let node: u64 = route[0].start_id;
                let ghost before = solution@.tasks;
                let task: Task = match solution.task_for(node) {
                    Some(task) => task,
                    None => {
                        let people: u64 = match self.node(node) {
                            None => {
                                return Err(Error::MissingNode { id: node });
                            },
                            Some(found) => match found.population {
                                None => {
                                    return Err(Error::MissingNode { id: node });
                                },
                                Some(people) => people,
                            },
                        };
                        let narrow: u64 = narrowest_capacity(route);
                        let rate: u64 = match self.node(node) {
                            Some(found) => match found.max_rate {
                                Some(rate) => if rate < narrow {
                                    rate
                                } else {
                                    narrow
                                },
                                None => narrow,
                            },
                            None => narrow,
                        };
                        let early: Task = match Task::new(node, people, rate, 0, false) {
                            Err(error) => {
                                return Err(error);
                            },
                            Ok(early) => early,
                        };
                        let mut trial: Validator = validator.duplicate();
                        let task: Task = match trial.schedule_route(route, early) {
                            Ok(true) => early,
                            _ => match Task::new(node, people, rate, horizon, false) {
                                Err(error) => {
                                    return Err(error);
                                },
                                Ok(late) => late,
                            },
                        };
                        solution.add_task(task);
                        proof {
                            lemma_task_from_push(before, task@, 0);
                        }
                        task
                    },
                };
                proof {
                    assert(begins_with(solution@.tasks, before)) by {
                        if solution@.tasks != before {
                            assert(before.push(task@).take(before.len() as int) =~= before);
                        } else {
                            assert(before.take(before.len() as int) =~= before);
                        }
                    }
                }
                let ghost ledgers = validator@;
                match validator.schedule_route(route, task) {
                    Ok(true) => {},
                    Ok(false) => {
                        return Err(Error::CapacityExceeded { node_id: node });
                    },
                    Err(error) => {
                        return Err(error);
                    },
                }
                proof {
                    lemma_validated_step(ledgers, all, i as int, before, solution@.tasks, task@);
                }
                let end: u64 = validator.latest_end_on(route[route.len() - 1]);
                if end > horizon {
                    horizon = end;
                }
            } else {
                proof {
                    assert forall|tasks: Seq<TaskModel>|
                        begins_with(tasks, solution@.tasks) implies #[trigger] validation(
                        all,
                        tasks,
                    ) == pass_from(validator@, all, i + 1, tasks) by {}
                }
            }
            i += 1;
        }
        let ghost tasks = solution@.tasks;
        proof {
            assert(begins_with(tasks, tasks)) by {
                assert(tasks.take(tasks.len() as int) =~= tasks);
            }
        }
        let count: usize = solution.tasks().len();
        let made_tasks: Vec<Task> = solution.tasks().clone();
        Ok(
            Solution::from_parts(
                Vec::new(),
                count as u64,
                made_tasks,
                true,
                0,
                0,
                Vec::new(),
                Vec::new(),
            ),
        )
    }
}

} // verus!
