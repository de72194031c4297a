//! The capacity ledger of one arc.
use vstd::prelude::*;
use crate::graph::Arc;
use crate::task::{Task, TaskModel};

verus! {

/// The number of people that `tasks` together put on an arc during unit `t`.
pub open spec fn load_at(tasks: Seq<TaskModel>, t: int) -> nat
    decreases tasks.len(),
{
    if tasks.len() == 0 {
        0
    } else {
        load_at(tasks.drop_last(), t) + tasks.last().demand_at(t)
    }
}

/// Whether `task` can join `tasks` on an arc of the given capacity: at every
/// unit of its window, its demand and theirs together stay within it.
pub open spec fn admissible(tasks: Seq<TaskModel>, task: TaskModel, capacity: nat) -> bool {
    forall|t: int| #[trigger]
        task.active_at(t) ==> task.demand_at(t) + load_at(tasks, t) <= capacity
}

/// Whether `tasks` never put more than `capacity` people on an arc.
pub open spec fn within_capacity(tasks: Seq<TaskModel>, capacity: nat) -> bool {
    forall|t: int| #[trigger] load_at(tasks, t) <= capacity
}

/// The latest end of a window among `tasks`; zero where there is none.
pub open spec fn latest_end(tasks: Seq<TaskModel>) -> nat
    decreases tasks.len(),
{
    if tasks.len() == 0 {
        0
    } else {
        let before = latest_end(tasks.drop_last());
        if tasks.last().end() > before {
            tasks.last().end()
        } else {
            before
        }
    }
}

/// The mathematical content of a [`Resource`].
pub struct ResourceModel {
    pub arc: Arc,
    pub duration: nat,
    pub tasks: Seq<TaskModel>,
}

impl ResourceModel {
    /// What every ledger holds: the duration of its arc, well-formed tasks
    /// in the order of their admission, and a load within the arc's capacity
    /// at every unit of time.
    pub open spec fn wf(self) -> bool {
        &&& self.duration == self.arc.length
        &&& forall|i: int| 0 <= i < self.tasks.len() ==> (#[trigger] self.tasks[i]).wf()
        &&& within_capacity(self.tasks, self.arc.capacity as nat)
    }
}

/// The answer of a ledger to a task.
#[derive(Clone, Copy, Debug, PartialEq, Eq, Structural)]
pub enum AddTaskResult {
    /// The task was entered in the ledger.
    Admitted,
    /// The task would overload the arc and was not entered. The number is the
    /// latest end among the tasks already there: from then on the arc is
    /// free.
    Rejected(u64),
}

/// The ledger of one arc: the tasks admitted onto it so far.
pub struct Resource {
    tasks: Vec<Task>,
    duration: u64,
    arc: Arc,
}

/// The models of the tasks of `tasks`, in order.
pub open spec fn models(tasks: Seq<Task>) -> Seq<TaskModel> {
    Seq::new(tasks.len(), |i: int| tasks[i]@)
}

impl View for Resource {
    type V = ResourceModel;

    closed spec fn view(&self) -> ResourceModel {
        ResourceModel {
            arc: self.arc,
            duration: self.duration as nat,
            tasks: models(self.tasks@),
        }
    }
}

/// Leaving out the tasks that came last never raises the load.
pub proof fn lemma_load_of_prefix(tasks: Seq<TaskModel>, n: int, t: int)
    requires
        0 <= n <= tasks.len(),
    ensures
        load_at(tasks.take(n), t) <= load_at(tasks, t),
    decreases tasks.len(),
{
    if n == tasks.len() {
        assert(tasks.take(n) =~= tasks);
    } else {
        lemma_load_of_prefix(tasks.drop_last(), n, t);
        assert(tasks.drop_last().take(n) =~= tasks.take(n));
    }
}

/// One more task adds its own demand to the load.
pub proof fn lemma_load_of_push(tasks: Seq<TaskModel>, task: TaskModel, t: int)
    ensures
        load_at(tasks.push(task), t) == load_at(tasks, t) + task.demand_at(t),
{
    assert(tasks.push(task).drop_last() =~= tasks);
}

/// No window among `tasks` ends after [`latest_end`].
pub proof fn lemma_latest_end_bounds(tasks: Seq<TaskModel>, i: int)
    requires
        0 <= i < tasks.len(),
    ensures
        tasks[i].end() <= latest_end(tasks),
    decreases tasks.len(),
{
    if i < tasks.len() - 1 {
        lemma_latest_end_bounds(tasks.drop_last(), i);
    }
}

/// Where there are tasks, [`latest_end`] is the end of one of them.
pub proof fn lemma_latest_end_is_an_end(tasks: Seq<TaskModel>) -> (i: int)
    requires
        tasks.len() > 0,
    ensures
        0 <= i < tasks.len(),
        tasks[i].end() == latest_end(tasks),
    decreases tasks.len(),
{
    let before = tasks.drop_last();
    if tasks.last().end() > latest_end(before) || before.len() == 0 {
        tasks.len() - 1
    } else {
        lemma_latest_end_is_an_end(before)
    }
}

/// An empty ledger admits any task whose rate, and whose demand on its last
/// unit, are within the capacity of the arc.
pub proof fn lemma_single_task_admitted(task: TaskModel, capacity: nat)
    requires
        task.rate <= capacity,
        task.last_unit_demand() <= capacity,
    ensures
        admissible(Seq::empty(), task, capacity),
{
}

/// A ledger admits a task exactly when the load stays within the capacity
/// once the task is entered, at every unit of the task's window.
pub proof fn lemma_admissible_means_load_fits(
    tasks: Seq<TaskModel>,
    task: TaskModel,
    capacity: nat,
)
    ensures
        admissible(tasks, task, capacity) <==> forall|t: int| #[trigger]
            task.active_at(t) ==> load_at(tasks.push(task), t) <= capacity,
{
    assert forall|t: int| #[trigger] load_at(tasks.push(task), t) == load_at(tasks, t)
        + task.demand_at(t) by {
        lemma_load_of_push(tasks, task, t);
    }
}

/// Admission keeps the load within the capacity: if it was within before a
/// task was admitted, it is within after.
pub proof fn lemma_admission_keeps_capacity(
    tasks: Seq<TaskModel>,
    task: TaskModel,
    capacity: nat,
)
    requires
        within_capacity(tasks, capacity),
        admissible(tasks, task, capacity),
    ensures
        within_capacity(tasks.push(task), capacity),
{
    assert forall|t: int| #[trigger] load_at(tasks.push(task), t) <= capacity by {
        lemma_load_of_push(tasks, task, t);
    }
}

/// The order of two admissions decides nothing where both succeed: two tasks
/// that a ledger admits one after the other, it admits in the other order
/// too.
pub proof fn lemma_admission_order(
    tasks: Seq<TaskModel>,
    first: TaskModel,
    second: TaskModel,
    capacity: nat,
)
    requires
        admissible(tasks, first, capacity),
        admissible(tasks.push(first), second, capacity),
    ensures
        admissible(tasks, second, capacity),
        admissible(tasks.push(second), first, capacity),
{
    assert forall|t: int| #[trigger] second.active_at(t) implies second.demand_at(t) + load_at(
        tasks,
        t,
    ) <= capacity by {
        lemma_load_of_push(tasks, first, t);
    }
    assert forall|t: int| #[trigger] first.active_at(t) implies first.demand_at(t) + load_at(
        tasks.push(second),
        t,
    ) <= capacity by {
        lemma_load_of_push(tasks, first, t);
        lemma_load_of_push(tasks, second, t);
    }
}

impl Resource {
    #[verifier::type_invariant]
    spec fn inv(self) -> bool {
        self@.wf()
    }

    /// The empty ledger of `arc`.
    pub fn new(arc: Arc) -> (resource: Resource)
        ensures
            resource@ == (ResourceModel {
                arc,
                duration: arc.length as nat,
                tasks: Seq::<TaskModel>::empty(),
            }),
            resource@.wf(),
    {
        let resource = Resource { tasks: Vec::new(), duration: arc.length, arc };
        assert(models(resource.tasks@) =~= Seq::<TaskModel>::empty());
        resource
    }

    /// Whether `task` can join the tasks of this ledger: whether at every
    /// unit of its window its demand and theirs together stay within the
    /// arc's capacity. The ledger is only read.
    pub fn admits(&self, task: &Task) -> (ok: bool)
        ensures
            self@.wf(),
            task@.wf(),
            ok == admissible(self@.tasks, task@, self@.arc.capacity as nat),
    {
        proof {
            use_type_invariant(self);
        }
        let capacity: u64 = self.arc.capacity;
        let start: u64 = task.start_offset();
        let length: u64 = task.task_length();
        let n: usize = self.tasks.len();
        let ghost residents = self@.tasks;
        let mut k: u64 = 0;
        while k < length
            invariant
                k <= length,
                n == self.tasks.len(),
                residents == models(self.tasks@),
                start == task@.start,
                length == task@.length,
                task@.wf(),
                self@.wf(),
                capacity == self.arc.capacity,
                forall|t: int|
                    start <= t < start + k ==> task@.demand_at(t) + load_at(residents, t)
                        <= capacity,
            decreases length - k,
        {
            let t: u64 = start + k;
            let mut load: u64 = task.demand_at(t);
            if load > capacity {
                return false;
            }
            let mut i: usize = 0;
            while i < n
                invariant
                    i <= n,
                    n == self.tasks.len(),
                    residents == models(self.tasks@),
                    load == task@.demand_at(t as int) + load_at(residents.take(i as int), t as int),
                    load <= capacity,
                    task@.active_at(t as int),
                    task@.wf(),
                    self@.wf(),
                    capacity == self.arc.capacity,
                decreases n - i,
            {
                let demand: u64 = self.tasks[i].demand_at(t);
                proof {
                    let before = residents.take(i as int);
                    assert(residents.take(i + 1) =~= before.push(residents[i as int]));
                    lemma_load_of_push(before, residents[i as int], t as int);
                }
                if demand > capacity - load {
                    proof {
                        lemma_load_of_prefix(residents, i + 1, t as int);
                    }
                    return false;
                }
                load = load + demand;
                i += 1;
            }
            assert(residents.take(n as int) =~= residents);
            k += 1;
        }
        true
    }

    /// The latest end of a window among the tasks of this ledger; zero where
    /// it is empty.
    pub fn latest_end(&self) -> (end: u64)
        ensures
            self@.wf(),
            end == latest_end(self@.tasks),
    {
        proof {
            use_type_invariant(self);
        }
        let n: usize = self.tasks.len();
        let ghost residents = self@.tasks;
        let mut end: u64 = 0;
        let mut i: usize = 0;
        while i < n
            invariant
                i <= n,
                n == self.tasks.len(),
                residents == models(self.tasks@),
                end == latest_end(residents.take(i as int)),
                self@.wf(),
            decreases n - i,
        {
            let task_end: u64 = self.tasks[i].end();
            assert(residents.take(i + 1).drop_last() =~= residents.take(i as int));
            if task_end > end {
                end = task_end;
            }
            i += 1;
        }
        assert(residents.take(n as int) =~= residents);
        end
    }

    /// Enters `task` in the ledger if the arc can carry it, and leaves the
    /// ledger as it was if not.
    ///
    /// The task is admitted exactly when, at every unit of its window, its
    /// demand and that of the tasks already admitted stay within the arc's
    /// capacity. An admitted task goes behind those that were there; a
    /// rejection reports the latest end among them.
    pub fn add_task(&mut self, task: Task) -> (result: AddTaskResult)
        ensures
            final(self)@.wf(),
            final(self)@.arc == old(self)@.arc,
            final(self)@.duration == old(self)@.duration,
            admissible(old(self)@.tasks, task@, old(self)@.arc.capacity as nat) ==> result
                == AddTaskResult::Admitted && final(self)@.tasks == old(self)@.tasks.push(task@),
            !admissible(old(self)@.tasks, task@, old(self)@.arc.capacity as nat) ==> result
                == AddTaskResult::Rejected(latest_end(old(self)@.tasks) as u64)
                && final(self)@.tasks == old(self)@.tasks,
            latest_end(old(self)@.tasks) <= u64::MAX,
    {
        let end: u64 = self.latest_end();
        if !self.admits(&task) {
            return AddTaskResult::Rejected(end);
        }
        let ghost before = self@.tasks;
        let ghost capacity = self.arc.capacity as nat;
        let mut tasks: Vec<Task> = Vec::new();
        std::mem::swap(&mut tasks, &mut self.tasks);
        tasks.push(task);
        proof {
            assert(models(tasks@) =~= before.push(task@));
            assert forall|t: int| #[trigger] load_at(before.push(task@), t) <= capacity by {
                lemma_load_of_push(before, task@, t);
            }
        }
        self.tasks = tasks;
        AddTaskResult::Admitted
    }

    /// A ledger of its own with the same arc and the same tasks.
    pub fn duplicate(&self) -> (copy: Resource)
        ensures
            copy@ == self@,
    {
        proof {
            use_type_invariant(self);
        }
        let tasks: Vec<Task> = self.tasks.clone();
        Resource { tasks, duration: self.duration, arc: self.arc }
    }

    /// The arc that this ledger belongs to.
    pub fn arc(&self) -> (arc: Arc)
        ensures
            arc == self@.arc,
    {
        self.arc
    }

    /// The time that a task spends on the arc.
    pub fn duration(&self) -> (duration: u64)
        ensures
            duration == self@.duration,
            duration == self@.arc.length,
    {
        proof {
            use_type_invariant(self);
        }
        self.duration
    }

    /// The tasks admitted so far, in the order of their admission.
    pub fn tasks(&self) -> (tasks: &Vec<Task>)
        ensures
            models(tasks@) == self@.tasks,
            self@.wf(),
    {
        proof {
            use_type_invariant(self);
        }
        &self.tasks
    }
}

} // verus!
