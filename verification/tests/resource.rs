use evac_routes::{AddTaskResult, Arc, Resource, Task};

fn arc(capacity: u64) -> Arc {
    Arc { start_id: 1, end_id: 2, length: 3, capacity, due_date: 0 }
}

fn task(people: u64, rate: u64, start: u64) -> Task {
    Task::new(1, people, rate, start, false).unwrap()
}

fn starts(resource: &Resource) -> Vec<u64> {
    resource.tasks().iter().map(|task| task.start_offset()).collect()
}

#[test]
fn new_ledger_is_empty() {
    let resource = Resource::new(arc(10));
    assert_eq!(resource.arc(), arc(10));
    assert_eq!(resource.duration(), 3);
    assert!(resource.tasks().is_empty());
    assert_eq!(resource.latest_end(), 0);
}

#[test]
fn single_task_on_single_arc() {
    let first = task(10, 5, 0);
    assert_eq!(first.task_length(), 2);
    assert_eq!(first.demand_at(0), 5);
    assert_eq!(first.demand_at(1), 5);
    let mut resource = Resource::new(arc(10));
    assert_eq!(resource.add_task(first), AddTaskResult::Admitted);
    assert_eq!(resource.tasks().len(), 1);
}

#[test]
fn second_task_within_capacity() {
    let mut resource = Resource::new(arc(10));
    assert_eq!(resource.add_task(task(10, 5, 0)), AddTaskResult::Admitted);
    let second = task(6, 3, 0);
    assert_eq!(second.demand_at(0) + 5, 8);
    assert_eq!(second.demand_at(1) + 5, 8);
    assert_eq!(resource.add_task(second), AddTaskResult::Admitted);
    assert_eq!(resource.tasks().len(), 2);
}

#[test]
fn second_task_over_capacity() {
    let mut resource = Resource::new(arc(10));
    assert_eq!(resource.add_task(task(10, 5, 0)), AddTaskResult::Admitted);
    let second = task(12, 6, 0);
    assert_eq!(second.task_length(), 2);
    assert_eq!(second.demand_at(0) + 5, 11);
    assert_eq!(second.demand_at(1) + 5, 11);
    assert!(!resource.admits(&second));
    assert_eq!(resource.add_task(second), AddTaskResult::Rejected(2));
    assert_eq!(resource.tasks().len(), 1);
    assert_eq!(resource.tasks()[0].total_people(), 10);
}

#[test]
fn single_task_within_capacity_is_never_rejected() {
    for capacity in 1..8u64 {
        for rate in 1..=capacity {
            for people in 0..20u64 {
                for start in [0u64, 3, 1000] {
                    let mut resource = Resource::new(arc(capacity));
                    assert_eq!(
                        resource.add_task(task(people, rate, start)),
                        AddTaskResult::Admitted
                    );
                }
            }
        }
    }
}

#[test]
fn single_task_over_capacity_is_rejected() {
    let mut resource = Resource::new(arc(4));
    assert_eq!(resource.add_task(task(10, 5, 0)), AddTaskResult::Rejected(0));
    assert!(resource.tasks().is_empty());
    assert_eq!(resource.add_task(task(5, 5, 0)), AddTaskResult::Rejected(0));
    assert_eq!(resource.add_task(task(4, 5, 0)), AddTaskResult::Admitted);
}

#[test]
fn rate_over_capacity_with_a_small_remainder() {
    let mut resource = Resource::new(arc(4));
    assert_eq!(resource.add_task(task(3, 5, 0)), AddTaskResult::Admitted);
    assert_eq!(resource.add_task(task(8, 5, 10)), AddTaskResult::Rejected(1));
}

#[test]
fn task_without_people_is_always_admitted() {
    let mut resource = Resource::new(arc(0));
    assert_eq!(resource.add_task(task(0, 9, 5)), AddTaskResult::Admitted);
    assert_eq!(resource.add_task(task(1, 1, 5)), AddTaskResult::Rejected(5));
}

#[test]
fn single_unit_task_checks_that_unit_only() {
    let mut resource = Resource::new(arc(10));
    assert_eq!(resource.add_task(task(30, 10, 0)), AddTaskResult::Admitted);
    assert_eq!(resource.add_task(task(1, 1, 2)), AddTaskResult::Rejected(3));
    assert_eq!(resource.add_task(task(1, 1, 3)), AddTaskResult::Admitted);
    assert_eq!(resource.add_task(task(10, 10, 4)), AddTaskResult::Admitted);
    assert_eq!(starts(&resource), vec![0, 3, 4]);
}

#[test]
fn partial_last_unit_of_a_resident_counts_as_what_is_left() {
    let mut resource = Resource::new(arc(10));
    assert_eq!(resource.add_task(task(7, 3, 0)), AddTaskResult::Admitted);
    assert_eq!(resource.add_task(task(36, 9, 0)), AddTaskResult::Rejected(3));
    assert_eq!(resource.add_task(task(9, 9, 2)), AddTaskResult::Admitted);
    assert_eq!(resource.add_task(task(1, 1, 2)), AddTaskResult::Rejected(3));
}

#[test]
fn full_last_unit_of_a_resident_counts_as_the_rate() {
    let mut resource = Resource::new(arc(10));
    assert_eq!(resource.add_task(task(9, 3, 0)), AddTaskResult::Admitted);
    assert_eq!(resource.add_task(task(8, 8, 2)), AddTaskResult::Rejected(3));
    assert_eq!(resource.add_task(task(7, 7, 2)), AddTaskResult::Admitted);
}

#[test]
fn full_last_unit_of_the_new_task_counts_as_the_rate() {
    let mut resource = Resource::new(arc(10));
    assert_eq!(resource.add_task(task(4, 4, 1)), AddTaskResult::Admitted);
    assert_eq!(resource.add_task(task(14, 7, 0)), AddTaskResult::Rejected(2));
    assert_eq!(resource.add_task(task(13, 7, 0)), AddTaskResult::Admitted);
}

#[test]
fn window_that_holds_a_whole_resident() {
    let mut resource = Resource::new(arc(10));
    assert_eq!(resource.add_task(task(7, 3, 2)), AddTaskResult::Admitted);
    assert_eq!(resource.add_task(task(70, 7, 0)), AddTaskResult::Admitted);
    assert_eq!(resource.add_task(task(3, 1, 2)), AddTaskResult::Rejected(10));
    assert_eq!(resource.add_task(task(2, 2, 4)), AddTaskResult::Admitted);
    assert_eq!(resource.add_task(task(1, 1, 4)), AddTaskResult::Rejected(10));
}

#[test]
fn rejection_reports_the_latest_end() {
    let mut resource = Resource::new(arc(5));
    assert_eq!(resource.add_task(task(4, 2, 10)), AddTaskResult::Admitted);
    assert_eq!(resource.add_task(task(2, 1, 30)), AddTaskResult::Admitted);
    assert_eq!(resource.add_task(task(9, 3, 0)), AddTaskResult::Admitted);
    assert_eq!(resource.latest_end(), 32);
    assert_eq!(resource.add_task(task(6, 6, 100)), AddTaskResult::Rejected(32));
    assert_eq!(resource.add_task(task(4, 4, 11)), AddTaskResult::Rejected(32));
    assert_eq!(resource.latest_end(), 32);
}

#[test]
fn admitted_tasks_stay_in_the_order_of_admission() {
    let mut resource = Resource::new(arc(10));
    for start in [8u64, 2, 5, 0, 9] {
        assert_eq!(resource.add_task(task(1, 1, start)), AddTaskResult::Admitted);
    }
    assert_eq!(starts(&resource), vec![8, 2, 5, 0, 9]);
}

#[test]
fn order_decides_which_task_is_rejected() {
    let large = task(12, 6, 0);
    let small = task(10, 5, 0);
    let mut one = Resource::new(arc(10));
    assert_eq!(one.add_task(large), AddTaskResult::Admitted);
    assert_eq!(one.add_task(small), AddTaskResult::Rejected(2));
    assert_eq!(one.tasks()[0].evac_rate(), 6);
    let mut other = Resource::new(arc(10));
    assert_eq!(other.add_task(small), AddTaskResult::Admitted);
    assert_eq!(other.add_task(large), AddTaskResult::Rejected(2));
    assert_eq!(other.tasks()[0].evac_rate(), 5);
}

#[test]
fn order_decides_what_a_third_task_meets() {
    let a = task(6, 6, 0);
    let b = task(6, 6, 0);
    let c = task(4, 4, 0);
    let mut one = Resource::new(arc(10));
    assert_eq!(one.add_task(a), AddTaskResult::Admitted);
    assert_eq!(one.add_task(b), AddTaskResult::Rejected(1));
    assert_eq!(one.add_task(c), AddTaskResult::Admitted);
    let mut other = Resource::new(arc(10));
    assert_eq!(other.add_task(c), AddTaskResult::Admitted);
    assert_eq!(other.add_task(a), AddTaskResult::Admitted);
    assert_eq!(other.add_task(b), AddTaskResult::Rejected(1));
    assert_eq!(one.tasks().len(), 2);
    assert_eq!(other.tasks().len(), 2);
}

#[test]
fn two_admitted_tasks_are_admitted_in_the_other_order() {
    let capacity = 7;
    for rate_a in 1..5u64 {
        for rate_b in 1..5u64 {
            for start_b in 0..6u64 {
                let a = task(9, rate_a, 2);
                let b = task(7, rate_b, start_b);
                let mut one = Resource::new(arc(capacity));
                let mut other = Resource::new(arc(capacity));
                let both = one.add_task(a) == AddTaskResult::Admitted
                    && one.add_task(b) == AddTaskResult::Admitted;
                let both_reversed = other.add_task(b) == AddTaskResult::Admitted
                    && other.add_task(a) == AddTaskResult::Admitted;
                assert_eq!(both, both_reversed);
            }
        }
    }
}

#[test]
fn admission_query_does_not_change_the_ledger() {
    let mut resource = Resource::new(arc(10));
    assert_eq!(resource.add_task(task(10, 5, 0)), AddTaskResult::Admitted);
    assert!(resource.admits(&task(6, 3, 0)));
    assert!(resource.admits(&task(6, 3, 0)));
    assert!(!resource.admits(&task(12, 6, 1)));
    assert_eq!(resource.tasks().len(), 1);
}

#[test]
fn load_never_exceeds_the_capacity() {
    let capacity = 9;
    let mut resource = Resource::new(arc(capacity));
    let mut seed: u64 = 12345;
    for _ in 0..200 {
        seed = seed.wrapping_mul(6364136223846793005).wrapping_add(1442695040888963407);
        let people = (seed >> 33) % 25;
        let rate = (seed >> 20) % 9 + 1;
        let start = (seed >> 10) % 40;
        let _ = resource.add_task(task(people, rate, start));
    }
    assert!(resource.tasks().len() > 3);
    for t in 0..80u64 {
        let load: u64 = resource.tasks().iter().map(|task| task.demand_at(t)).sum();
        assert!(load <= capacity);
    }
}

#[test]
fn duplicate_is_a_ledger_of_its_own() {
    let mut resource = Resource::new(arc(10));
    assert_eq!(resource.add_task(task(10, 5, 0)), AddTaskResult::Admitted);
    let mut copy = resource.duplicate();
    assert_eq!(copy.arc(), resource.arc());
    assert_eq!(copy.duration(), resource.duration());
    assert_eq!(starts(&copy), starts(&resource));
    assert_eq!(copy.add_task(task(5, 5, 7)), AddTaskResult::Admitted);
    assert_eq!(starts(&copy), vec![0, 7]);
    assert_eq!(starts(&resource), vec![0]);
    assert_eq!(copy.latest_end(), 8);
    assert_eq!(resource.latest_end(), 2);
}

#[test]
fn full_last_unit_counts_whichever_task_comes_first() {
    let partial = task(7, 4, 0);
    let full = task(8, 8, 0);
    let mut one = Resource::new(arc(8));
    assert_eq!(one.add_task(partial), AddTaskResult::Admitted);
    assert_eq!(one.add_task(full), AddTaskResult::Rejected(2));
    let mut other = Resource::new(arc(8));
    assert_eq!(other.add_task(full), AddTaskResult::Admitted);
    assert_eq!(other.add_task(partial), AddTaskResult::Rejected(1));
}
