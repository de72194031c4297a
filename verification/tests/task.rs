use evac_routes::{Error, Task};

fn demands(task: &Task, from: u64, until: u64) -> Vec<u64> {
    let mut all = Vec::new();
    let mut t = from;
    while t < until {
        all.push(task.demand_at(t));
        t += 1;
    }
    all
}

#[test]
fn length_is_population_over_rate_rounded_up() {
    assert_eq!(Task::new(1, 10, 5, 0, false).unwrap().task_length(), 2);
    assert_eq!(Task::new(1, 7, 3, 0, false).unwrap().task_length(), 3);
    assert_eq!(Task::new(1, 9, 3, 0, false).unwrap().task_length(), 3);
    assert_eq!(Task::new(1, 1, 3, 0, false).unwrap().task_length(), 1);
    assert_eq!(Task::new(1, 0, 3, 0, false).unwrap().task_length(), 0);
    assert_eq!(Task::new(1, u64::MAX, 1, 0, false).unwrap().task_length(), u64::MAX);
    assert_eq!(Task::new(1, u64::MAX, u64::MAX, 0, false).unwrap().task_length(), 1);
    assert_eq!(Task::new(1, u64::MAX, 2, 0, false).unwrap().task_length(), 1 << 63);
}

#[test]
fn length_is_the_least_number_of_units_that_suffices() {
    for people in 0..40u64 {
        for rate in 1..12u64 {
            let length = Task::new(1, people, rate, 0, false).unwrap().task_length();
            assert!(length * rate >= people);
            assert!(length == 0 || (length - 1) * rate < people);
        }
    }
}

#[test]
fn zero_rate_is_refused() {
    assert_eq!(Task::new(7, 10, 0, 0, false).unwrap_err(), Error::ZeroRateTask { node_id: 7 });
    assert_eq!(Task::new(7, 0, 0, 0, true).unwrap_err(), Error::ZeroRateTask { node_id: 7 });
    assert_eq!(
        Task::new(7, 10, 0, u64::MAX, false).unwrap_err(),
        Error::ZeroRateTask { node_id: 7 }
    );
}

#[test]
fn window_beyond_the_last_unit_is_refused() {
    assert_eq!(
        Task::new(3, 10, 5, u64::MAX - 1, false).unwrap_err(),
        Error::TimeOverflow { node_id: 3 }
    );
    let last = Task::new(3, 10, 5, u64::MAX - 2, false).unwrap();
    assert_eq!(last.end(), u64::MAX);
    assert_eq!(Task::new(3, 0, 5, u64::MAX, false).unwrap().end(), u64::MAX);
}

#[test]
fn fields_are_kept() {
    let task = Task::new(4, 11, 3, 8, true).unwrap();
    assert_eq!(task.node_id_to_evac(), 4);
    assert_eq!(task.total_people(), 11);
    assert_eq!(task.evac_rate(), 3);
    assert_eq!(task.start_offset(), 8);
    assert_eq!(task.task_length(), 4);
    assert_eq!(task.end(), 12);
    assert!(task.is_valid());
    assert!(!Task::new(4, 11, 3, 8, false).unwrap().is_valid());
}

#[test]
fn remainder_leaves_in_the_last_unit() {
    let task = Task::new(1, 7, 3, 0, false).unwrap();
    assert_eq!(task.task_length(), 3);
    assert_eq!(demands(&task, 0, 5), vec![3, 3, 1, 0, 0]);
}

#[test]
fn exact_multiple_fills_the_last_unit() {
    let task = Task::new(1, 9, 3, 0, false).unwrap();
    assert_eq!(task.task_length(), 3);
    assert_eq!(demands(&task, 0, 5), vec![3, 3, 3, 0, 0]);
}

#[test]
fn demand_is_zero_outside_the_window() {
    let task = Task::new(1, 7, 3, 10, false).unwrap();
    assert_eq!(demands(&task, 8, 15), vec![0, 0, 3, 3, 1, 0, 0]);
    assert_eq!(task.demand_at(0), 0);
    assert_eq!(task.demand_at(u64::MAX), 0);
}

#[test]
fn single_unit_task_has_one_demand() {
    let small = Task::new(1, 2, 5, 4, false).unwrap();
    assert_eq!(small.task_length(), 1);
    assert_eq!(demands(&small, 3, 6), vec![0, 2, 0]);
    let full = Task::new(1, 5, 5, 4, false).unwrap();
    assert_eq!(full.task_length(), 1);
    assert_eq!(demands(&full, 3, 6), vec![0, 5, 0]);
}

#[test]
fn empty_task_has_no_demand() {
    let task = Task::new(1, 0, 5, 4, false).unwrap();
    assert_eq!(task.task_length(), 0);
    assert_eq!(demands(&task, 2, 7), vec![0, 0, 0, 0, 0]);
}

#[test]
fn demand_over_the_window_sums_to_the_population() {
    for people in 0..30u64 {
        for rate in 1..9u64 {
            let task = Task::new(1, people, rate, 5, false).unwrap();
            let sum: u64 = demands(&task, 0, 50).iter().sum();
            assert_eq!(sum, people);
        }
    }
}

#[test]
fn delay_moves_the_window() {
    let task = Task::new(2, 7, 3, 1, true).unwrap();
    let later = task.delayed_by(4).unwrap();
    assert_eq!(later.start_offset(), 5);
    assert_eq!(later.task_length(), 3);
    assert_eq!(later.total_people(), 7);
    assert_eq!(later.evac_rate(), 3);
    assert_eq!(later.node_id_to_evac(), 2);
    assert!(later.is_valid());
    assert_eq!(demands(&later, 4, 9), vec![0, 3, 3, 1, 0]);
    assert_eq!(task.start_offset(), 1);
    assert_eq!(task.delayed_by(0).unwrap().start_offset(), 1);
}

#[test]
fn delay_beyond_the_last_unit_is_refused() {
    let task = Task::new(2, 7, 3, 1, false).unwrap();
    assert_eq!(task.delayed_by(u64::MAX - 4).unwrap().end(), u64::MAX);
    assert_eq!(
        task.delayed_by(u64::MAX - 3).unwrap_err(),
        Error::TimeOverflow { node_id: 2 }
    );
    assert_eq!(task.delayed_by(u64::MAX).unwrap_err(), Error::TimeOverflow { node_id: 2 });
}
