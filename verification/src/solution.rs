//! A schedule, and its validation against a graph.
use vstd::prelude::*;
use crate::demand::{lemma_validity_is_absence_of_overload, never_overloaded};
use crate::error::Error;
use crate::graph::{route_seqs, Arc, Graph};
use crate::resource::models;
use crate::task::{Task, TaskModel};
use crate::validator::{
    answer, capacities_respected, lemma_walk_respects_capacities, walk, Outcome, Validator,
};

verus! {

/// The mathematical content of a [`Solution`].
pub struct SolutionModel {
    pub graph_name: Seq<u8>,
    pub nb_of_evac_nodes: u64,
    pub tasks: Seq<TaskModel>,
    pub is_valid: bool,
    pub obj_value: u64,
    pub evaluation_time: u64,
    pub method: Seq<u8>,
    pub comment: Seq<u8>,
}

/// The first of `tasks`, from index `i` on, that evacuates `node`.
pub open spec fn task_from(tasks: Seq<TaskModel>, node: u64, i: int) -> Option<TaskModel>
    decreases tasks.len() - i,
{
    if i < 0 || i >= tasks.len() {
        None
    } else if tasks[i].node == node {
        Some(tasks[i])
    } else {
        task_from(tasks, node, i + 1)
    }
}

/// The task of `node`: the first of `tasks` that evacuates it.
pub open spec fn task_of(tasks: Seq<TaskModel>, node: u64) -> Option<TaskModel> {
    task_from(tasks, node, 0)
}

/// The task found for a node evacuates that node, and is one of the tasks.
pub proof fn lemma_task_from(tasks: Seq<TaskModel>, node: u64, i: int)
    requires
        task_from(tasks, node, i) is Some,
    ensures
        task_from(tasks, node, i)->Some_0.node == node,
        tasks.contains(task_from(tasks, node, i)->Some_0),
    decreases tasks.len() - i,
{
    if tasks[i].node != node {
        lemma_task_from(tasks, node, i + 1);
    }
}

/// The end of a validation pass: its verdict, and the ledgers as it left
/// them.
pub struct Pass {
    pub verdict: Result<bool, Error>,
    pub ledgers: Map<Arc, Seq<TaskModel>>,
}

/// The pass over `routes` from route `i` on, with `ledgers` as the routes
/// before it left them.
///
/// Each route, in the order of declaration, has the task of the node at which
/// it starts walk along it. The pass stops at the first route that has no
/// task, at the first rejection and at the first window that does not fit;
/// it succeeds when every route was walked to its end. A route without arcs
/// has nothing to walk.
pub open spec fn pass_from(
    ledgers: Map<Arc, Seq<TaskModel>>,
    routes: Seq<Seq<Arc>>,
    i: int,
    tasks: Seq<TaskModel>,
) -> Pass
    decreases routes.len() - i,
{
    if i < 0 || i >= routes.len() {
        Pass { verdict: Ok(true), ledgers }
    } else if routes[i].len() == 0 {
        pass_from(ledgers, routes, i + 1, tasks)
    } else {
        let node = routes[i][0].start_id;
        match task_of(tasks, node) {
            None => Pass { verdict: Err(Error::MissingTask { node_id: node }), ledgers },
            Some(task) => {
                let walked = walk(ledgers, routes[i], 0, task);
                match walked.outcome {
                    Outcome::Completed => pass_from(walked.ledgers, routes, i + 1, tasks),
                    _ => Pass { verdict: answer(walked.outcome, node), ledgers: walked.ledgers },
                }
            },
        }
    }
}

/// The validation of `tasks` against `routes`, starting from empty ledgers.
pub open spec fn validation(routes: Seq<Seq<Arc>>, tasks: Seq<TaskModel>) -> Pass {
    pass_from(Map::empty(), routes, 0, tasks)
}

/// What a check makes of a schedule: the schedule with the finding in place
/// of the claim where there is a finding, and the schedule as it was where
/// the check failed.
pub open spec fn checked(routes: Seq<Seq<Arc>>, solution: SolutionModel) -> SolutionModel {
    match validation(routes, solution.tasks).verdict {
        Ok(valid) => SolutionModel { is_valid: valid, ..solution },
        Err(_) => solution,
    }
}

/// A second check of the same schedule against the same graph finds what the
/// first found, and leaves the schedule as the first left it.
pub proof fn lemma_check_repeats(routes: Seq<Seq<Arc>>, solution: SolutionModel)
    ensures
        validation(routes, checked(routes, solution).tasks).verdict == validation(
            routes,
            solution.tasks,
        ).verdict,
        checked(routes, checked(routes, solution)) == checked(routes, solution),
{
}

/// A pass keeps every capacity: on every arc, at every unit of time, the
/// tasks that it has admitted stay within the capacity of the arc, however
/// the pass ended.
pub proof fn lemma_pass_respects_capacities(
    ledgers: Map<Arc, Seq<TaskModel>>,
    routes: Seq<Seq<Arc>>,
    i: int,
    tasks: Seq<TaskModel>,
)
    requires
        capacities_respected(ledgers),
    ensures
        capacities_respected(pass_from(ledgers, routes, i, tasks).ledgers),
    decreases routes.len() - i,
{
    if 0 <= i < routes.len() {
        if routes[i].len() == 0 {
            lemma_pass_respects_capacities(ledgers, routes, i + 1, tasks);
        } else {
            match task_of(tasks, routes[i][0].start_id) {
                None => {},
                Some(task) => {
                    lemma_walk_respects_capacities(ledgers, routes[i], 0, task);
                    let walked = walk(ledgers, routes[i], 0, task);
                    if walked.outcome is Completed {
                        lemma_pass_respects_capacities(walked.ledgers, routes, i + 1, tasks);
                    }
                },
            }
        }
    }
}

/// No arc of a validated schedule is ever overloaded.
pub proof fn lemma_validation_respects_capacities(routes: Seq<Seq<Arc>>, tasks: Seq<TaskModel>)
    ensures
        capacities_respected(validation(routes, tasks).ledgers),
{
    lemma_pass_respects_capacities(Map::empty(), routes, 0, tasks);
}

/// A schedule: one task for each evacuation node, and what its author says
/// of it.
///
/// `is_valid` is the author's claim until [`Solution::check_with_graph`] has
/// replaced it by the library's own finding.
#[derive(Debug)]
pub struct Solution {
    graph_name: Vec<u8>,
    nb_of_evac_nodes: u64,
    tasks: Vec<Task>,
    is_valid: bool,
    obj_value: u64,
    evaluation_time: u64,
    method: Vec<u8>,
    comment: Vec<u8>,
}

impl View for Solution {
    type V = SolutionModel;

    closed spec fn view(&self) -> SolutionModel {
        SolutionModel {
            graph_name: self.graph_name@,
            nb_of_evac_nodes: self.nb_of_evac_nodes,
            tasks: models(self.tasks@),
            is_valid: self.is_valid,
            obj_value: self.obj_value,
            evaluation_time: self.evaluation_time,
            method: self.method@,
            comment: self.comment@,
        }
    }
}

impl Solution {
    /// The empty schedule: no name, no task, not valid.
    pub fn new() -> (solution: Solution)
        ensures
            solution@ == (SolutionModel {
                graph_name: Seq::<u8>::empty(),
                nb_of_evac_nodes: 0,
                tasks: Seq::<TaskModel>::empty(),
                is_valid: false,
                obj_value: 0,
                evaluation_time: 0,
                method: Seq::<u8>::empty(),
                comment: Seq::<u8>::empty(),
            }),
    {
        let solution = Solution {
            graph_name: Vec::new(),
            nb_of_evac_nodes: 0,
            tasks: Vec::new(),
            is_valid: false,
            obj_value: 0,
            evaluation_time: 0,
            method: Vec::new(),
            comment: Vec::new(),
        };
        assert(models(solution.tasks@) =~= Seq::<TaskModel>::empty());
        solution
    }

    /// The schedule with these eight parts.
    pub fn from_parts(
        graph_name: Vec<u8>,
        nb_of_evac_nodes: u64,
        tasks: Vec<Task>,
        is_valid: bool,
        obj_value: u64,
        evaluation_time: u64,
        method: Vec<u8>,
        comment: Vec<u8>,
    ) -> (solution: Solution)
        ensures
            solution@ == (SolutionModel {
                graph_name: graph_name@,
                nb_of_evac_nodes,
                tasks: models(tasks@),
                is_valid,
                obj_value,
                evaluation_time,
                method: method@,
                comment: comment@,
            }),
    {
        Solution {
            graph_name,
            nb_of_evac_nodes,
            tasks,
            is_valid,
            obj_value,
            evaluation_time,
            method,
            comment,
        }
    }

    /// Puts `task` behind the tasks of the schedule.
    pub fn add_task(&mut self, task: Task)
        ensures
            final(self)@ == (SolutionModel {
                tasks: old(self)@.tasks.push(task@),
                ..old(self)@
            }),
    {
        let ghost before = self@;
        self.tasks.push(task);
        assert(models(self.tasks@) =~= before.tasks.push(task@));
    }

    /// The task of `node`: the first task of the schedule that evacuates it.
    pub fn task_for(&self, node: u64) -> (task: Option<Task>)
        ensures
            match task {
                Some(task) => task_of(self@.tasks, node) == Some(task@) && task@.node == node
                    && task@.wf(),
                None => task_of(self@.tasks, node) is None,
            },
    {
        let n: usize = self.tasks.len();
        let mut i: usize = 0;
        while i < n
            invariant
                i <= n,
                n == self.tasks@.len(),
                task_of(self@.tasks, node) == task_from(self@.tasks, node, i as int),
            decreases n - i,
        {
            if self.tasks[i].node_id_to_evac() == node {
                let task: Task = self.tasks[i];
                let _ = task.task_length();
                return Some(task);
            }
            i += 1;
        }
        None
    }

    /// The name of the graph that the schedule is for.
    pub fn graph_name(&self) -> (name: &Vec<u8>)
        ensures
            name@ == self@.graph_name,
    {
        &self.graph_name
    }

    /// The number of evacuation nodes that the schedule declares.
    pub fn nb_of_evac_nodes(&self) -> (count: u64)
        ensures
            count == self@.nb_of_evac_nodes,
    {
        self.nb_of_evac_nodes
    }

    /// The tasks, in the order in which they were added.
    pub fn tasks(&self) -> (tasks: &Vec<Task>)
        ensures
            models(tasks@) == self@.tasks,
    {
        &self.tasks
    }

    /// Whether the schedule is valid: its author's claim, or the finding of
    /// the last check.
    pub fn is_valid(&self) -> (valid: bool)
        ensures
            valid == self@.is_valid,
    {
        self.is_valid
    }

    /// The value of the objective that the schedule declares.
    pub fn obj_value(&self) -> (value: u64)
        ensures
            value == self@.obj_value,
    {
        self.obj_value
    }

    /// The time that the evaluation of the schedule took.
    pub fn evaluation_time(&self) -> (time: u64)
        ensures
            time == self@.evaluation_time,
    {
        self.evaluation_time
    }

    /// The name of the method that made the schedule.
    pub fn method(&self) -> (method: &Vec<u8>)
        ensures
            method@ == self@.method,
    {
        &self.method
    }

    /// The comment that the schedule carries.
    pub fn comment(&self) -> (comment: &Vec<u8>)
        ensures
            comment@ == self@.comment,
    {
        &self.comment
    }

    /// Decides whether the schedule overloads an arc of `graph`, and records
    /// the finding in `is_valid`.
    ///
    /// The routes are taken in the order of their declaration. The task of
    /// the node at which a route starts walks along the route, and every arc
    /// keeps one ledger for all the routes that cross it. The answer is
    /// `false` at the first arc that cannot carry a task; no route is looked
    /// at after that. It is `true` when every route was walked to its end.
    /// A route whose start has no task, and a window that does not fit in
    /// 64 bits, are errors and leave the schedule as it was.
    ///
    /// The finding is `true` exactly when no arc is ever overloaded: when on
    /// every arc, at every unit of time, the people that all tasks together
    /// bring to the arc are no more than it can carry.
    pub fn check_with_graph(&mut self, graph: &Graph) -> (result: Result<bool, Error>)
        ensures
            result == validation(graph@.routes, old(self)@.tasks).verdict,
            final(self)@ == checked(graph@.routes, old(self)@),
            result matches Ok(valid) ==> valid == never_overloaded(
                graph@.routes,
                old(self)@.tasks,
            ),
    {
        let routes: &Vec<Vec<Arc>> = graph.routes();
        let ghost tasks = self@.tasks;
        let ghost all = route_seqs(routes@);
        proof {
            lemma_validity_is_absence_of_overload(all, tasks);
        }
        let mut validator = Validator::new();
        let mut i: usize = 0;
        while i < routes.len()
            invariant
                i <= routes.len(),
                all == route_seqs(routes@),
                all == graph@.routes,
                *self == *old(self),
                tasks == self@.tasks,
                validation(all, tasks) == pass_from(validator@, all, i as int, tasks),
                validation(all, tasks).verdict matches Ok(valid) ==> valid == never_overloaded(
                    all,
                    tasks,
                ),
            decreases routes.len() - i,
        {
            let route: &Vec<Arc> = &routes[i];
            if route.len() > 0 {
                let node: u64 = route[0].start_id;
                match self.task_for(node) {
                    None => {
                        return Err(Error::MissingTask { node_id: node });
                    },
                    Some(task) => {
                        match validator.schedule_route(route, task) {
                            Ok(true) => {},
                            Ok(false) => {
                                self.is_valid = false;
                                return Ok(false);
                            },
                            Err(error) => {
                                return Err(error);
                            },
                        }
                    },
                }
            }
            i += 1;
        }
        self.is_valid = true;
        Ok(true)
    }
}

} // verus!
