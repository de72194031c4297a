//! The ledgers of one validation pass.
use vstd::prelude::*;
use crate::error::Error;
use crate::graph::Arc;
use crate::resource::{
    admissible, latest_end, lemma_admission_keeps_capacity, models, within_capacity,
    AddTaskResult, Resource, ResourceModel,
};
use crate::task::{Task, TaskModel};

verus! {

/// The tasks admitted on `arc`; none where `ledgers` has no entry for it.
pub open spec fn ledger_of(ledgers: Map<Arc, Seq<TaskModel>>, arc: Arc) -> Seq<TaskModel> {
    if ledgers.contains_key(arc) {
        ledgers[arc]
    } else {
        Seq::empty()
    }
}

/// `ledgers` with `task` entered behind the tasks of `arc`.
pub open spec fn entered(ledgers: Map<Arc, Seq<TaskModel>>, arc: Arc, task: TaskModel) -> Map<
    Arc,
    Seq<TaskModel>,
> {
    ledgers.insert(arc, ledger_of(ledgers, arc).push(task))
}

/// Whether on every arc the admitted tasks stay within the arc's capacity at
/// every unit of time.
pub open spec fn capacities_respected(ledgers: Map<Arc, Seq<TaskModel>>) -> bool {
    forall|arc: Arc| #[trigger]
        ledgers.contains_key(arc) ==> within_capacity(ledgers[arc], arc.capacity as nat)
}

/// How the walk of a task along a route ended.
pub enum Outcome {
    /// Every arc of the route admitted the task.
    Completed,
    /// An arc could not carry the task.
    Rejected,
    /// The task reached an arc with a window that ends after the last 64-bit
    /// unit of time.
    Overflow,
}

/// The end of a walk, and the ledgers as the walk left them.
pub struct Walk {
    pub outcome: Outcome,
    pub ledgers: Map<Arc, Seq<TaskModel>>,
}

/// The walk of `task` along `route` from its arc `k` on.
///
/// Each arc in turn is asked to admit the task. Once admitted, the task
/// moves on to the next arc, delayed by the length of the arc that it leaves.
/// The first arc that cannot carry it ends the walk; what earlier arcs
/// admitted stays in their ledgers.
pub open spec fn walk(
    ledgers: Map<Arc, Seq<TaskModel>>,
    route: Seq<Arc>,
    k: int,
    task: TaskModel,
) -> Walk
    decreases route.len() - k,
{
    if k < 0 || k >= route.len() {
        Walk { outcome: Outcome::Completed, ledgers }
    } else if task.end() > u64::MAX {
        Walk { outcome: Outcome::Overflow, ledgers }
    } else if !admissible(ledger_of(ledgers, route[k]), task, route[k].capacity as nat) {
        Walk { outcome: Outcome::Rejected, ledgers }
    } else {
        walk(
            entered(ledgers, route[k], task),
            route,
            k + 1,
            task.delayed(route[k].length as nat),
        )
    }
}

/// The answer that a walk of the task of `node` gives: `true` for a route
/// walked to its end, `false` for a rejection.
pub open spec fn answer(outcome: Outcome, node: u64) -> Result<bool, Error> {
    match outcome {
        Outcome::Completed => Ok(true),
        Outcome::Rejected => Ok(false),
        Outcome::Overflow => Err(Error::TimeOverflow { node_id: node }),
    }
}

/// A walk keeps every capacity: if the ledgers respected them before it,
/// they respect them after it, however it ended.
pub proof fn lemma_walk_respects_capacities(
    ledgers: Map<Arc, Seq<TaskModel>>,
    route: Seq<Arc>,
    k: int,
    task: TaskModel,
)
    requires
        capacities_respected(ledgers),
    ensures
        capacities_respected(walk(ledgers, route, k, task).ledgers),
    decreases route.len() - k,
{
    if 0 <= k < route.len() && task.end() <= u64::MAX && admissible(
        ledger_of(ledgers, route[k]),
        task,
        route[k].capacity as nat,
    ) {
        let arc = route[k];
        let next = entered(ledgers, arc, task);
        assert(capacities_respected(next)) by {
            lemma_admission_keeps_capacity(
                ledger_of(ledgers, arc),
                task,
                arc.capacity as nat,
            );
        }
        lemma_walk_respects_capacities(next, route, k + 1, task.delayed(arc.length as nat));
    }
}

/// The models of `resources`, in order.
pub open spec fn resource_models(resources: Seq<Resource>) -> Seq<ResourceModel> {
    Seq::new(resources.len(), |i: int| resources[i]@)
}

/// Whether no two of `resources` belong to the same arc, and each is well
/// formed.
pub open spec fn one_ledger_per_arc(resources: Seq<ResourceModel>) -> bool {
    &&& forall|i: int, j: int|
        0 <= i < j < resources.len() ==> (#[trigger] resources[i]).arc != (
        #[trigger] resources[j]).arc
    &&& forall|i: int| 0 <= i < resources.len() ==> (#[trigger] resources[i]).wf()
}

/// Whether one of `resources` belongs to `arc` and holds a task.
pub open spec fn in_use(resources: Seq<ResourceModel>, arc: Arc) -> bool {
    exists|i: int| holds(resources, arc, i)
}

/// Whether `resources[i]` belongs to `arc` and holds a task.
pub open spec fn holds(resources: Seq<ResourceModel>, arc: Arc, i: int) -> bool {
    0 <= i < resources.len() && resources[i].arc == arc && resources[i].tasks.len() > 0
}

/// What `resources` hold, arc by arc. An arc whose ledger is empty has no
/// entry.
pub open spec fn ledgers_of(resources: Seq<ResourceModel>) -> Map<Arc, Seq<TaskModel>> {
    Map::new(
        |arc: Arc| in_use(resources, arc),
        |arc: Arc| resources[choose|i: int| holds(resources, arc, i)].tasks,
    )
}

/// The ledger of `resources[i]` is what `ledgers_of` has for its arc.
proof fn lemma_ledger_at(resources: Seq<ResourceModel>, i: int)
    requires
        one_ledger_per_arc(resources),
        0 <= i < resources.len(),
    ensures
        ledger_of(ledgers_of(resources), resources[i].arc) == resources[i].tasks,
{
    let arc = resources[i].arc;
    if resources[i].tasks.len() > 0 {
        assert(holds(resources, arc, i));
        let j = choose|j: int| holds(resources, arc, j);
        assert(j == i);
    } else {
        if in_use(resources, arc) {
            let j = choose|j: int| holds(resources, arc, j);
            assert(j == i);
        }
        assert(resources[i].tasks =~= Seq::<TaskModel>::empty());
    }
}

/// An empty ledger more changes nothing of what the ledgers hold.
proof fn lemma_ledgers_of_push_empty(resources: Seq<ResourceModel>, fresh: ResourceModel)
    requires
        one_ledger_per_arc(resources.push(fresh)),
        fresh.tasks.len() == 0,
    ensures
        one_ledger_per_arc(resources),
        ledgers_of(resources.push(fresh)) == ledgers_of(resources),
{
    let more = resources.push(fresh);
    assert(one_ledger_per_arc(resources)) by {
        assert forall|a: int, b: int| 0 <= a < b < resources.len() implies (
        #[trigger] resources[a]).arc != (#[trigger] resources[b]).arc by {
            assert(more[a].arc != more[b].arc);
        }
        assert forall|a: int| 0 <= a < resources.len() implies (#[trigger] resources[a]).wf() by {
            assert(more[a].wf());
        }
    }
    assert forall|arc: Arc| #[trigger] ledgers_of(more).contains_key(arc) == ledgers_of(
        resources,
    ).contains_key(arc) && (ledgers_of(resources).contains_key(arc) ==> ledgers_of(more)[arc]
        == ledgers_of(resources)[arc]) by {
        if in_use(more, arc) {
            let j = choose|j: int| holds(more, arc, j);
            lemma_ledger_at(resources, j);
        }
        if in_use(resources, arc) {
            let j = choose|j: int| holds(resources, arc, j);
            lemma_ledger_at(more, j);
        }
    }
}

/// A task entered in the ledger of `resources[i]` is a task entered for its
/// arc.
proof fn lemma_ledgers_of_update(
    resources: Seq<ResourceModel>,
    i: int,
    after: ResourceModel,
    task: TaskModel,
)
    requires
        one_ledger_per_arc(resources),
        0 <= i < resources.len(),
        after.arc == resources[i].arc,
        after.tasks == resources[i].tasks.push(task),
        after.wf(),
    ensures
        one_ledger_per_arc(resources.update(i, after)),
        ledgers_of(resources.update(i, after)) == entered(
            ledgers_of(resources),
            resources[i].arc,
            task,
        ),
{
    let arc = resources[i].arc;
    let updated = resources.update(i, after);
    let target = entered(ledgers_of(resources), arc, task);
    lemma_ledger_at(resources, i);
    assert forall|other: Arc| #[trigger] ledgers_of(updated).contains_key(other)
        == target.contains_key(other) && (target.contains_key(other) ==> ledgers_of(updated)[other]
        == target[other]) by {
        if other == arc {
            assert(holds(updated, arc, i));
        } else {
            if in_use(updated, other) {
                let j = choose|j: int| holds(updated, other, j);
                lemma_ledger_at(resources, j);
            }
            if in_use(resources, other) {
                let j = choose|j: int| holds(resources, other, j);
                lemma_ledger_at(updated, j);
            }
        }
    }
}

/// The index in `resources` of the ledger of `arc`, which is made, empty,
/// if no task has reached the arc yet.
fn find_or_create(resources: &mut Vec<Resource>, arc: Arc) -> (index: usize)
    requires
        one_ledger_per_arc(resource_models(old(resources)@)),
    ensures
        one_ledger_per_arc(resource_models(final(resources)@)),
        ledgers_of(resource_models(final(resources)@)) == ledgers_of(
            resource_models(old(resources)@),
        ),
        index < final(resources)@.len(),
        final(resources)@[index as int]@.arc == arc,
{
    let n: usize = resources.len();
    let mut i: usize = 0;
    while i < n
        invariant
            i <= n,
            n == resources@.len(),
            *resources == *old(resources),
            one_ledger_per_arc(resource_models(resources@)),
            forall|j: int| 0 <= j < i ==> (#[trigger] resources@[j])@.arc != arc,
        decreases n - i,
    {
        if resources[i].arc() == arc {
            return i;
        }
        i += 1;
    }
    let fresh = Resource::new(arc);
    let ghost before = resource_models(resources@);
    resources.push(fresh);
    proof {
        assert(resource_models(resources@) =~= before.push(fresh@));
        lemma_ledgers_of_push_empty(before, fresh@);
    }
    n
}

/// The ledgers of one validation pass: for each arc that a task has reached,
/// the one ledger of that arc.
///
/// Its view is what the ledgers hold, arc by arc; an arc on which nothing
/// was admitted has no entry.
pub struct Validator {
    resources: Vec<Resource>,
}

impl View for Validator {
    type V = Map<Arc, Seq<TaskModel>>;

    closed spec fn view(&self) -> Map<Arc, Seq<TaskModel>> {
        ledgers_of(resource_models(self.resources@))
    }
}

impl Validator {
    #[verifier::type_invariant]
    spec fn inv(self) -> bool {
        one_ledger_per_arc(resource_models(self.resources@))
    }

    /// A pass in which no task was admitted yet.
    pub fn new() -> (validator: Validator)
        ensures
            validator@ == Map::<Arc, Seq<TaskModel>>::empty(),
    {
        Validator { resources: Vec::new() }
    }

    /// Asks the ledger of `arc` to admit `task`. The ledger is the same for
    /// every task that reaches the arc, and is made when the first does.
    pub fn schedule(&mut self, arc: Arc, task: Task) -> (result: AddTaskResult)
        ensures
            task@.wf(),
            capacities_respected(final(self)@),
            admissible(ledger_of(old(self)@, arc), task@, arc.capacity as nat) ==> result
                == AddTaskResult::Admitted && final(self)@ == entered(old(self)@, arc, task@),
            !admissible(ledger_of(old(self)@, arc), task@, arc.capacity as nat) ==> result
                == AddTaskResult::Rejected(
                latest_end(ledger_of(old(self)@, arc)) as u64,
            ) && final(self)@ == old(self)@,
            latest_end(ledger_of(old(self)@, arc)) <= u64::MAX,
    {
        proof {
            use_type_invariant(&*self);
        }
        let _ = task.task_length();
        let mut resources: Vec<Resource> = Vec::new();
        std::mem::swap(&mut resources, &mut self.resources);
        let index: usize = find_or_create(&mut resources, arc);
        let ghost before = resource_models(resources@);
        let result = resources[index].add_task(task);
        proof {
            let after = resource_models(resources@);
            lemma_ledger_at(before, index as int);
            if result == AddTaskResult::Admitted {
                assert(after =~= before.update(index as int, resources@[index as int]@));
                lemma_ledgers_of_update(before, index as int, resources@[index as int]@, task@);
            } else {
                assert(after =~= before);
            }
        }
        self.resources = resources;
        result
    }

    /// Walks `task` along `route`: each arc in turn is asked to admit it, and
    /// the task reaches the next arc later by the length of the arc that it
    /// leaves.
    ///
    /// The answer is `true` when every arc admitted the task and `false` at
    /// the first arc that could not carry it. What the arcs before that one
    /// admitted stays in their ledgers.
    pub fn schedule_route(&mut self, route: &Vec<Arc>, task: Task) -> (result: Result<bool, Error>)
        ensures
            task@.wf(),
            capacities_respected(final(self)@),
            final(self)@ == walk(old(self)@, route@, 0, task@).ledgers,
            result == answer(walk(old(self)@, route@, 0, task@).outcome, task@.node),
    {
        proof {
            use_type_invariant(&*self);
        }
        let _ = task.task_length();
        let ghost start = self@;
        let mut current: Task = task;
        let mut k: usize = 0;
        while k < route.len()
            invariant
                k <= route.len(),
                task@.wf(),
                current@.wf(),
                current@.node == task@.node,
                start == old(self)@,
                capacities_respected(self@),
                walk(start, route@, 0, task@) == walk(self@, route@, k as int, current@),
            decreases route.len() - k,
        {
            let arc: Arc = route[k];
            match self.schedule(arc, current) {
                AddTaskResult::Rejected(_) => {
                    return Ok(false);
                },
                AddTaskResult::Admitted => {},
            }
            if k + 1 < route.len() {
                match current.delayed_by(arc.length) {
                    Ok(next) => {
                        current = next;
                    },
                    Err(error) => {
                        assert(walk(
                            self@,
                            route@,
                            k + 1,
                            current@.delayed(arc.length as nat),
                        ).outcome == Outcome::Overflow);
                        return Err(error);
                    },
                }
            }
            k += 1;
        }
        Ok(true)
    }

    /// Ledgers of their own that hold what these hold.
    pub fn duplicate(&self) -> (copy: Validator)
        ensures
            copy@ == self@,
    {
        proof {
            use_type_invariant(self);
        }
        let n: usize = self.resources.len();
        let mut resources: Vec<Resource> = Vec::new();
        let mut i: usize = 0;
        while i < n
            invariant
                i <= n,
                n == self.resources@.len(),
                resource_models(resources@) == resource_models(self.resources@).take(i as int),
            decreases n - i,
        {
            let copy: Resource = self.resources[i].duplicate();
            proof {
                let before = resource_models(resources@);
                let whole = resource_models(self.resources@);
                assert(resource_models(resources@.push(copy)) =~= before.push(copy@));
                assert(whole[i as int] == copy@);
                assert(before.push(copy@) =~= whole.take(i + 1));
            }
            resources.push(copy);
            i += 1;
        }
        assert(resource_models(self.resources@).take(n as int) =~= resource_models(
            self.resources@,
        ));
        Validator { resources }
    }

    /// The latest end of a window among the tasks admitted on `arc`; zero
    /// where there is none.
    pub fn latest_end_on(&self, arc: Arc) -> (end: u64)
        ensures
            end == latest_end(ledger_of(self@, arc)),
    {
        proof {
            use_type_invariant(self);
        }
        let n: usize = self.resources.len();
        let mut i: usize = 0;
        while i < n
            invariant
                i <= n,
                n == self.resources@.len(),
                one_ledger_per_arc(resource_models(self.resources@)),
                forall|j: int| 0 <= j < i ==> (#[trigger] self.resources@[j])@.arc != arc,
            decreases n - i,
        {
            if self.resources[i].arc() == arc {
                proof {
                    lemma_ledger_at(resource_models(self.resources@), i as int);
                }
                return self.resources[i].latest_end();
            }
            i += 1;
        }
        0
    }

    /// The tasks admitted on `arc` so far, in the order of their admission.
    pub fn tasks_on(&self, arc: Arc) -> (tasks: Vec<Task>)
        ensures
            models(tasks@) == ledger_of(self@, arc),
    {
        proof {
            use_type_invariant(self);
        }
        let n: usize = self.resources.len();
        let mut i: usize = 0;
        while i < n
            invariant
                i <= n,
                n == self.resources@.len(),
                one_ledger_per_arc(resource_models(self.resources@)),
                forall|j: int| 0 <= j < i ==> (#[trigger] self.resources@[j])@.arc != arc,
            decreases n - i,
        {
            if self.resources[i].arc() == arc {
                proof {
                    lemma_ledger_at(resource_models(self.resources@), i as int);
                }
                return self.resources[i].tasks().clone();
            }
            i += 1;
        }
        Vec::new()
    }
}

} // verus!
