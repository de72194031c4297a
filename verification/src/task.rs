//! One node's evacuation flow.
use vstd::prelude::*;
use crate::error::Error;

verus! {

/// The mathematical content of a [`Task`]: evacuate `people` persons from
/// `node`, `rate` of them per unit of time, from time `start` on.
pub struct TaskModel {
    pub node: u64,
    pub people: nat,
    pub rate: nat,
    pub start: nat,
    pub length: nat,
    pub flag: bool,
}

/// The number of units of time that `people` persons need to leave at `rate`
/// per unit: the quotient rounded up.
pub open spec fn units_needed(people: nat, rate: nat) -> nat
    recommends
        rate > 0,
{
    if people % rate > 0 {
        people / rate + 1
    } else {
        people / rate
    }
}

impl TaskModel {
    /// The first unit of time after the task's window.
    pub open spec fn end(self) -> nat {
        self.start + self.length
    }

    /// Whether the task is leaving people at time `t`.
    pub open spec fn active_at(self, t: int) -> bool {
        self.start <= t < self.end()
    }

    /// The number of people that leave during the last unit of the window:
    /// what is left after the full units, or a full unit where nothing is.
    pub open spec fn last_unit_demand(self) -> nat {
        if self.people % self.rate > 0 {
            self.people % self.rate
        } else {
            self.rate
        }
    }

    /// The number of people that the task puts on an arc during unit `t`.
    pub open spec fn demand_at(self, t: int) -> nat {
        if !self.active_at(t) {
            0
        } else if t < self.end() - 1 {
            self.rate
        } else {
            self.last_unit_demand()
        }
    }

    /// The same task, starting `delay` units later.
    pub open spec fn delayed(self, delay: nat) -> TaskModel {
        TaskModel { start: self.start + delay, ..self }
    }

    /// What every task holds: a positive rate, the length that its population
    /// and rate give, and a window that ends within 64-bit time.
    pub open spec fn wf(self) -> bool {
        &&& self.rate > 0
        &&& self.length == units_needed(self.people, self.rate)
        &&& self.people <= u64::MAX
        &&& self.rate <= u64::MAX
        &&& self.end() <= u64::MAX
    }
}

/// The task that the five values make, or the reason why they make none: a
/// rate of zero first, a window that ends after the last 64-bit unit of time
/// next.
pub open spec fn made(node: u64, people: u64, rate: u64, start: nat, flag: bool) -> Result<
    TaskModel,
    Error,
> {
    if rate == 0 {
        Err(Error::ZeroRateTask { node_id: node })
    } else if start + units_needed(people as nat, rate as nat) > u64::MAX {
        Err(Error::TimeOverflow { node_id: node })
    } else {
        Ok(
            TaskModel {
                node,
                people: people as nat,
                rate: rate as nat,
                start,
                length: units_needed(people as nat, rate as nat),
                flag,
            },
        )
    }
}

/// The number of people that `task` has let go before unit `t`.
pub open spec fn demand_until(task: TaskModel, t: int) -> nat
    decreases t - task.start,
{
    if t <= task.start {
        0
    } else {
        demand_until(task, t - 1) + task.demand_at(t - 1)
    }
}

/// The length of a task is its population divided by its rate and rounded
/// up: the smallest number of units that, at that rate, let everybody go.
pub proof fn lemma_units_needed_is_ceiling(people: nat, rate: nat)
    requires
        rate > 0,
    ensures
        units_needed(people, rate) * rate >= people,
        forall|units: nat|
            #[trigger] (units * rate) >= people ==> units >= units_needed(people, rate),
{
    let needed = units_needed(people, rate);
    assert(people == rate * (people / rate) + people % rate) by (nonlinear_arith)
        requires
            rate > 0,
    ;
    assert(needed * rate >= people) by (nonlinear_arith)
        requires
            rate > 0,
            people == rate * (people / rate) + people % rate,
            0 <= people % rate < rate,
            needed == if people % rate > 0 {
                people / rate + 1
            } else {
                people / rate
            },
    ;
    assert forall|units: nat| #[trigger] (units * rate) >= people implies units >= needed by {
        assert(units >= needed) by (nonlinear_arith)
            requires
                rate > 0,
                units * rate >= people,
                people == rate * (people / rate) + people % rate,
                0 <= people % rate < rate,
                needed == if people % rate > 0 {
                    people / rate + 1
                } else {
                    people / rate
                },
        ;
    }
}

/// Every task that can be made has a positive rate and the length that its
/// population and rate give.
pub proof fn lemma_made_is_well_formed(node: u64, people: u64, rate: u64, start: nat, flag: bool)
    ensures
        rate == 0 ==> made(node, people, rate, start, flag) is Err,
        made(node, people, rate, start, flag) matches Ok(task) ==> task.wf() && task.length
            == units_needed(task.people, task.rate),
{
}

/// The demand of a task, summed over its window, is its population: a task
/// lets everybody go, and nobody twice.
pub proof fn lemma_demand_sums_to_population(task: TaskModel)
    requires
        task.wf(),
    ensures
        demand_until(task, task.end() as int) == task.people,
{
    lemma_demand_until(task, task.end() as int);
    let full = task.people / task.rate;
    let rest = task.people % task.rate;
    assert(task.people == task.rate * full + rest) by (nonlinear_arith)
        requires
            task.rate > 0,
            full == task.people / task.rate,
            rest == task.people % task.rate,
    ;
    if task.length > 0 {
        assert((task.length - 1) * task.rate + task.last_unit_demand() == task.people)
            by (nonlinear_arith)
            requires
                task.people == task.rate * full + rest,
                task.length == if rest > 0 {
                    full + 1
                } else {
                    full
                },
                task.last_unit_demand() == if rest > 0 {
                    rest
                } else {
                    task.rate
                },
                task.length > 0,
        ;
    } else {
        assert(task.people == 0) by (nonlinear_arith)
            requires
                task.people == task.rate * full + rest,
                full == 0,
                rest == 0,
        ;
    }
}

/// Before its last unit a task has let go its rate for each unit that has
/// passed; at its end it has let go that and the demand of its last unit.
proof fn lemma_demand_until(task: TaskModel, until: int)
    requires
        task.wf(),
        task.start <= until <= task.end(),
    ensures
        until < task.end() ==> demand_until(task, until) == (until - task.start) * task.rate,
        until == task.end() && task.length > 0 ==> demand_until(task, until) == (task.length - 1)
            * task.rate + task.last_unit_demand(),
        until == task.end() && task.length == 0 ==> demand_until(task, until) == 0,
    decreases until - task.start,
{
    if until > task.start {
        lemma_demand_until(task, until - 1);
        let units = until - task.start;
        assert((units - 1) * task.rate + task.rate == units * task.rate) by (nonlinear_arith);
    } else {
        assert((until - task.start) * task.rate == 0) by (nonlinear_arith)
            requires
                until == task.start,
        ;
    }
}

/// The evacuation of one node: how many people, how fast, and from when.
///
/// A task is a value: moving it along a route makes a new task with a later
/// start. `is_valid` is carried for the text form only and plays no part in
/// any decision.
#[derive(Clone, Copy, Debug)]
pub struct Task {
    node_id_to_evac: u64,
    total_people: u64,
    evac_rate: u64,
    start_offset: u64,
    task_length: u64,
    is_valid: bool,
}

impl View for Task {
    type V = TaskModel;

    closed spec fn view(&self) -> TaskModel {
        TaskModel {
            node: self.node_id_to_evac,
            people: self.total_people as nat,
            rate: self.evac_rate as nat,
            start: self.start_offset as nat,
            length: self.task_length as nat,
            flag: self.is_valid,
        }
    }
}

impl Task {
    #[verifier::type_invariant]
    spec fn inv(self) -> bool {
        self@.wf()
    }

    /// Makes the task of node `node_id_to_evac`. Its length is the number of
    /// units that `total_people` need at `evac_rate`.
    ///
    /// A rate of zero is refused first; a window that would end after the
    /// last 64-bit unit of time is refused next.
    pub fn new(
        node_id_to_evac: u64,
        total_people: u64,
        evac_rate: u64,
        start_offset: u64,
        is_valid: bool,
    ) -> (result: Result<Task, Error>)
        ensures
            match result {
                Ok(task) => made(
                    node_id_to_evac,
                    total_people,
                    evac_rate,
                    start_offset as nat,
                    is_valid,
                ) == Ok::<TaskModel, Error>(task@) && task@.wf(),
                Err(error) => made(
                    node_id_to_evac,
                    total_people,
                    evac_rate,
                    start_offset as nat,
                    is_valid,
                ) == Err::<TaskModel, Error>(error),
            },
    {
        if evac_rate == 0 {
            return Err(Error::ZeroRateTask { node_id: node_id_to_evac });
        }
        let full: u64 = total_people / evac_rate;
        let rest: u64 = total_people % evac_rate;
        assert(rest > 0 ==> full < total_people) by (nonlinear_arith)
            requires
                evac_rate > 0,
                full == total_people / evac_rate,
                rest == total_people % evac_rate,
        ;
        let task_length: u64 = if rest > 0 {
            full + 1
        } else {
            full
        };
        if task_length > u64::MAX - start_offset {
            return Err(Error::TimeOverflow { node_id: node_id_to_evac });
        }
        Ok(Task { node_id_to_evac, total_people, evac_rate, start_offset, task_length, is_valid })
    }

    /// The same task, starting `duration` units later: the task as it enters
    /// the next arc of its route. Refused if its window would then end after
    /// the last 64-bit unit of time.
    pub fn delayed_by(&self, duration: u64) -> (result: Result<Task, Error>)
        ensures
            self@.wf(),
            self@.end() + duration <= u64::MAX ==> result is Ok && result->Ok_0@
                == self@.delayed(duration as nat) && result->Ok_0@.wf(),
            self@.end() + duration > u64::MAX ==> result == Err::<Task, Error>(
                Error::TimeOverflow { node_id: self@.node },
            ),
    {
        proof {
            use_type_invariant(self);
        }
        if duration > u64::MAX - self.start_offset - self.task_length {
            return Err(Error::TimeOverflow { node_id: self.node_id_to_evac });
        }
        Ok(
            Task {
                node_id_to_evac: self.node_id_to_evac,
                total_people: self.total_people,
                evac_rate: self.evac_rate,
                start_offset: self.start_offset + duration,
                task_length: self.task_length,
                is_valid: self.is_valid,
            },
        )
    }

    /// The number of people that the task puts on an arc during unit `t`:
    /// nothing outside its window, its rate on every unit but the last, and
    /// on the last unit what is left, or the full rate where nothing is.
    pub fn demand_at(&self, t: u64) -> (demand: u64)
        ensures
            self@.wf(),
            demand == self@.demand_at(t as int),
    {
        proof {
            use_type_invariant(self);
        }
        if t < self.start_offset || t - self.start_offset >= self.task_length {
            0
        } else if t - self.start_offset < self.task_length - 1 {
            self.evac_rate
        } else {
            let rest: u64 = self.total_people % self.evac_rate;
            if rest > 0 {
                rest
            } else {
                self.evac_rate
            }
        }
    }

    /// The first unit of time after the task's window.
    pub fn end(&self) -> (end: u64)
        ensures
            self@.wf(),
            end == self@.end(),
    {
        proof {
            use_type_invariant(self);
        }
        self.start_offset + self.task_length
    }

    /// The node that the task evacuates.
    pub fn node_id_to_evac(&self) -> (id: u64)
        ensures
            id == self@.node,
    {
        self.node_id_to_evac
    }

    /// The number of people to evacuate.
    pub fn total_people(&self) -> (people: u64)
        ensures
            people == self@.people,
    {
        self.total_people
    }

    /// The number of people that leave per unit of time.
    pub fn evac_rate(&self) -> (rate: u64)
        ensures
            self@.wf(),
            rate == self@.rate,
    {
        proof {
            use_type_invariant(self);
        }
        self.evac_rate
    }

    /// The unit of time at which the first people leave.
    pub fn start_offset(&self) -> (start: u64)
        ensures
            start == self@.start,
    {
        self.start_offset
    }

    /// The number of units of time during which people leave.
    pub fn task_length(&self) -> (length: u64)
        ensures
            self@.wf(),
            length == self@.length,
    {
        proof {
            use_type_invariant(self);
        }
        self.task_length
    }

    /// The flag that the task was made with. It informs; nothing reads it.
    pub fn is_valid(&self) -> (flag: bool)
        ensures
            flag == self@.flag,
    {
        self.is_valid
    }
}

} // verus!
