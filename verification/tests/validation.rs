use evac_routes::{AddTaskResult, Arc, Error, EvacNode, Graph, Solution, Task, Validator};

fn arc(start_id: u64, end_id: u64, length: u64, capacity: u64) -> Arc {
    Arc { start_id, end_id, length, capacity, due_date: 100 }
}

fn task(node: u64, people: u64, rate: u64, start: u64) -> Task {
    Task::new(node, people, rate, start, false).unwrap()
}

fn schedule(tasks: Vec<Task>) -> Solution {
    let mut solution = Solution::new();
    for task in tasks {
        solution.add_task(task);
    }
    solution
}

fn one_arc(capacity: u64, sources: &[(u64, u64)]) -> Graph {
    let mut graph = Graph::new(9);
    for _ in sources {
        graph.add_route(vec![arc(1, 9, 4, capacity)]);
    }
    graph
}

fn two_sources(shared_capacity: u64) -> Graph {
    Graph::build(
        4,
        &vec![
            EvacNode { id: 1, population: 10, max_rate: 5, path: vec![3, 4] },
            EvacNode { id: 2, population: 6, max_rate: 5, path: vec![3, 4] },
        ],
        &vec![arc(1, 3, 3, 10), arc(2, 3, 2, 8), arc(3, 4, 2, shared_capacity)],
    )
    .unwrap()
}

fn windows(tasks: &[Task]) -> Vec<(u64, u64)> {
    tasks.iter().map(|task| (task.node_id_to_evac(), task.start_offset())).collect()
}

#[test]
fn new_schedule_is_empty_and_not_valid() {
    let solution = Solution::new();
    assert!(solution.graph_name().is_empty());
    assert_eq!(solution.nb_of_evac_nodes(), 0);
    assert!(solution.tasks().is_empty());
    assert!(!solution.is_valid());
    assert_eq!(solution.obj_value(), 0);
    assert_eq!(solution.evaluation_time(), 0);
    assert!(solution.method().is_empty());
    assert!(solution.comment().is_empty());
}

#[test]
fn parts_are_kept() {
    let solution = Solution::from_parts(
        b"name".to_vec(),
        3,
        vec![task(1, 2, 3, 4)],
        true,
        5,
        6,
        b"method".to_vec(),
        b"comment".to_vec(),
    );
    assert_eq!(solution.graph_name(), &b"name".to_vec());
    assert_eq!(solution.nb_of_evac_nodes(), 3);
    assert_eq!(windows(solution.tasks()), vec![(1, 4)]);
    assert!(solution.is_valid());
    assert_eq!(solution.obj_value(), 5);
    assert_eq!(solution.evaluation_time(), 6);
    assert_eq!(solution.method(), &b"method".to_vec());
    assert_eq!(solution.comment(), &b"comment".to_vec());
}

#[test]
fn task_for_a_node_is_the_first_of_that_node() {
    let solution = schedule(vec![task(1, 10, 5, 0), task(2, 6, 3, 7), task(2, 6, 3, 9)]);
    assert_eq!(solution.task_for(2).unwrap().start_offset(), 7);
    assert_eq!(solution.task_for(1).unwrap().start_offset(), 0);
    assert!(solution.task_for(3).is_none());
}

#[test]
fn one_route_one_arc_one_task() {
    let mut graph = Graph::new(9);
    graph.add_route(vec![arc(1, 9, 4, 10)]);
    let mut solution = schedule(vec![task(1, 10, 5, 0)]);
    assert_eq!(solution.check_with_graph(&graph), Ok(true));
    assert!(solution.is_valid());
}

#[test]
fn two_tasks_within_the_capacity_of_a_shared_arc() {
    let mut graph = Graph::new(9);
    graph.add_route(vec![arc(1, 9, 4, 10)]);
    graph.add_route(vec![arc(2, 1, 0, 10), arc(1, 9, 4, 10)]);
    let mut solution = schedule(vec![task(1, 10, 5, 0), task(2, 6, 3, 0)]);
    assert_eq!(solution.check_with_graph(&graph), Ok(true));
    assert!(solution.is_valid());
}

#[test]
fn two_tasks_over_the_capacity_of_a_shared_arc() {
    let mut graph = Graph::new(9);
    graph.add_route(vec![arc(1, 9, 4, 10)]);
    graph.add_route(vec![arc(2, 1, 0, 10), arc(1, 9, 4, 10)]);
    let mut solution = Solution::from_parts(
        Vec::new(),
        2,
        vec![task(1, 10, 5, 0), task(2, 12, 6, 0)],
        true,
        0,
        0,
        Vec::new(),
        Vec::new(),
    );
    assert_eq!(solution.check_with_graph(&graph), Ok(false));
    assert!(!solution.is_valid());
}

#[test]
fn start_moves_on_by_the_length_of_each_arc() {
    let mut validator = Validator::new();
    let route = vec![arc(1, 2, 3, 10), arc(2, 3, 2, 10)];
    assert_eq!(validator.schedule_route(&route, task(1, 10, 5, 0)), Ok(true));
    assert_eq!(windows(&validator.tasks_on(route[0])), vec![(1, 0)]);
    assert_eq!(windows(&validator.tasks_on(route[1])), vec![(1, 3)]);
    let longer = vec![arc(5, 6, 7, 10), arc(6, 2, 11, 10), arc(2, 3, 2, 10)];
    assert_eq!(validator.schedule_route(&longer, task(5, 1, 1, 100)), Ok(true));
    assert_eq!(windows(&validator.tasks_on(longer[0])), vec![(5, 100)]);
    assert_eq!(windows(&validator.tasks_on(longer[1])), vec![(5, 107)]);
    assert_eq!(windows(&validator.tasks_on(route[1])), vec![(1, 3), (5, 118)]);
}

#[test]
fn shared_arc_has_one_ledger() {
    let graph = two_sources(7);
    let mut solution = schedule(vec![task(1, 10, 5, 0), task(2, 6, 3, 0)]);
    assert_eq!(solution.check_with_graph(&graph), Ok(false));
    assert!(!solution.is_valid());
    let mut later = schedule(vec![task(1, 10, 5, 0), task(2, 6, 3, 1)]);
    assert_eq!(later.check_with_graph(&graph), Ok(false));
    let mut apart = schedule(vec![task(1, 10, 5, 0), task(2, 6, 3, 3)]);
    assert_eq!(apart.check_with_graph(&graph), Ok(true));
    assert!(apart.is_valid());
    let mut before = schedule(vec![task(1, 10, 5, 1), task(2, 6, 3, 0)]);
    assert_eq!(before.check_with_graph(&graph), Ok(true));
    let wide = two_sources(8);
    let mut together = schedule(vec![task(1, 10, 5, 0), task(2, 6, 3, 0)]);
    assert_eq!(together.check_with_graph(&wide), Ok(true));
}

#[test]
fn arcs_that_differ_in_one_field_have_ledgers_of_their_own() {
    let mut validator = Validator::new();
    let one = Arc { start_id: 1, end_id: 2, length: 3, capacity: 5, due_date: 0 };
    let other = Arc { due_date: 1, ..one };
    assert_eq!(validator.schedule(one, task(1, 5, 5, 0)), AddTaskResult::Admitted);
    assert_eq!(validator.schedule(other, task(2, 5, 5, 0)), AddTaskResult::Admitted);
    assert_eq!(validator.schedule(one, task(3, 1, 1, 0)), AddTaskResult::Rejected(1));
    assert_eq!(windows(&validator.tasks_on(one)), vec![(1, 0)]);
    assert_eq!(windows(&validator.tasks_on(other)), vec![(2, 0)]);
    assert!(validator.tasks_on(Arc { capacity: 6, ..one }).is_empty());
}

#[test]
fn rejection_keeps_what_earlier_arcs_admitted() {
    let mut validator = Validator::new();
    let route = vec![arc(1, 2, 3, 10), arc(2, 3, 2, 4), arc(3, 4, 1, 10)];
    assert_eq!(validator.schedule_route(&route, task(1, 10, 5, 0)), Ok(false));
    assert_eq!(windows(&validator.tasks_on(route[0])), vec![(1, 0)]);
    assert!(validator.tasks_on(route[1]).is_empty());
    assert!(validator.tasks_on(route[2]).is_empty());
}

#[test]
fn route_that_crosses_an_arc_twice() {
    let mut validator = Validator::new();
    let ring = arc(1, 1, 1, 5);
    assert_eq!(validator.schedule_route(&vec![ring, ring], task(1, 6, 3, 0)), Ok(false));
    assert_eq!(windows(&validator.tasks_on(ring)), vec![(1, 0)]);
    let mut other = Validator::new();
    let slow = arc(1, 1, 2, 5);
    assert_eq!(other.schedule_route(&vec![slow, slow], task(1, 6, 3, 0)), Ok(true));
    assert_eq!(windows(&other.tasks_on(slow)), vec![(1, 0), (1, 2)]);
}

#[test]
fn first_rejection_stops_the_check() {
    let mut graph = Graph::new(9);
    graph.add_route(vec![arc(1, 9, 4, 10)]);
    graph.add_route(vec![arc(7, 9, 4, 10)]);
    let mut solution = schedule(vec![task(1, 22, 11, 0)]);
    assert_eq!(solution.check_with_graph(&graph), Ok(false));
    let mut fits = schedule(vec![task(1, 22, 10, 0)]);
    assert_eq!(fits.check_with_graph(&graph), Err(Error::MissingTask { node_id: 7 }));
}

#[test]
fn route_without_a_task_is_an_error() {
    let graph = two_sources(10);
    let mut solution = Solution::from_parts(
        Vec::new(),
        1,
        vec![task(1, 10, 5, 0)],
        true,
        0,
        0,
        Vec::new(),
        Vec::new(),
    );
    assert_eq!(solution.check_with_graph(&graph), Err(Error::MissingTask { node_id: 2 }));
    assert!(solution.is_valid());
    let mut empty = Solution::new();
    assert_eq!(empty.check_with_graph(&graph), Err(Error::MissingTask { node_id: 1 }));
    assert!(!empty.is_valid());
}

#[test]
fn window_beyond_the_last_unit_on_a_later_arc_is_an_error() {
    let mut graph = Graph::new(9);
    graph.add_route(vec![arc(1, 2, 10, 10), arc(2, 9, 4, 10)]);
    let mut fits = schedule(vec![task(1, 10, 5, u64::MAX - 12)]);
    assert_eq!(fits.check_with_graph(&graph), Ok(true));
    let mut solution = schedule(vec![task(1, 10, 5, u64::MAX - 11)]);
    assert_eq!(solution.check_with_graph(&graph), Err(Error::TimeOverflow { node_id: 1 }));
    assert!(!solution.is_valid());
}

#[test]
fn length_of_the_last_arc_does_not_move_the_task() {
    let mut graph = Graph::new(9);
    graph.add_route(vec![arc(1, 9, u64::MAX, 10)]);
    let mut solution = schedule(vec![task(1, 10, 5, 50)]);
    assert_eq!(solution.check_with_graph(&graph), Ok(true));
}

#[test]
fn graph_without_routes_accepts_any_schedule() {
    let graph = Graph::new(9);
    let mut solution = schedule(vec![task(1, 10, 5, 0)]);
    assert_eq!(solution.check_with_graph(&graph), Ok(true));
    assert!(solution.is_valid());
    let mut empty = Solution::new();
    assert_eq!(empty.check_with_graph(&graph), Ok(true));
}

#[test]
fn route_without_arcs_needs_no_task() {
    let mut graph = Graph::new(9);
    graph.add_route(vec![]);
    graph.add_route(vec![arc(1, 9, 4, 10)]);
    let mut solution = schedule(vec![task(1, 10, 5, 0)]);
    assert_eq!(solution.check_with_graph(&graph), Ok(true));
}

#[test]
fn routes_are_taken_in_the_order_of_declaration() {
    let shared = arc(3, 9, 1, 10);
    let mut graph = Graph::new(9);
    graph.add_route(vec![arc(1, 3, 0, 20), shared]);
    graph.add_route(vec![arc(2, 3, 0, 20), shared]);
    graph.add_route(vec![arc(4, 3, 0, 3), shared]);
    let mut solution = schedule(vec![task(4, 4, 4, 0), task(2, 6, 6, 0), task(1, 6, 6, 0)]);
    assert_eq!(solution.check_with_graph(&graph), Ok(false));
    let mut reversed = Graph::new(9);
    reversed.add_route(vec![arc(4, 3, 0, 3), shared]);
    reversed.add_route(vec![arc(1, 3, 0, 20), shared]);
    let mut other = schedule(vec![task(4, 4, 4, 0), task(2, 6, 6, 0), task(1, 6, 6, 0)]);
    assert_eq!(other.check_with_graph(&reversed), Ok(false));
    let mut open = Graph::new(9);
    open.add_route(vec![arc(4, 3, 0, 4), shared]);
    open.add_route(vec![arc(1, 3, 0, 20), shared]);
    let mut third = schedule(vec![task(4, 4, 4, 0), task(2, 6, 6, 0), task(1, 6, 6, 0)]);
    assert_eq!(third.check_with_graph(&open), Ok(true));
}

#[test]
fn second_check_finds_what_the_first_found() {
    let graph = two_sources(7);
    let mut invalid = schedule(vec![task(1, 10, 5, 0), task(2, 6, 3, 0)]);
    let first = invalid.check_with_graph(&graph);
    let second = invalid.check_with_graph(&graph);
    assert_eq!(first, Ok(false));
    assert_eq!(second, first);
    assert!(!invalid.is_valid());
    let mut valid = schedule(vec![task(1, 10, 5, 0), task(2, 6, 3, 3)]);
    let first = valid.check_with_graph(&graph);
    let second = valid.check_with_graph(&graph);
    assert_eq!(first, Ok(true));
    assert_eq!(second, first);
    assert!(valid.is_valid());
    assert_eq!(windows(valid.tasks()), vec![(1, 0), (2, 3)]);
    assert_eq!(graph.routes().len(), 2);
    assert_eq!(graph.get_bounds(), Some((6, 10)));
    let _ = one_arc(1, &[]);
}

#[test]
fn claim_of_the_author_is_replaced_by_the_finding() {
    let graph = two_sources(8);
    let mut solution = Solution::from_parts(
        b"g".to_vec(),
        2,
        vec![task(1, 10, 5, 0), task(2, 6, 3, 0)],
        false,
        7,
        8,
        b"m".to_vec(),
        b"c".to_vec(),
    );
    assert_eq!(solution.check_with_graph(&graph), Ok(true));
    assert!(solution.is_valid());
    assert_eq!(solution.graph_name(), &b"g".to_vec());
    assert_eq!(solution.nb_of_evac_nodes(), 2);
    assert_eq!(solution.obj_value(), 7);
    assert_eq!(solution.evaluation_time(), 8);
    assert_eq!(solution.method(), &b"m".to_vec());
    assert_eq!(solution.comment(), &b"c".to_vec());
    assert_eq!(solution.tasks().len(), 2);
}

#[test]
fn flag_of_a_task_decides_nothing() {
    let graph = two_sources(8);
    let mut flagged = schedule(vec![
        Task::new(1, 10, 5, 0, true).unwrap(),
        Task::new(2, 6, 3, 0, false).unwrap(),
    ]);
    assert_eq!(flagged.check_with_graph(&graph), Ok(true));
    let narrow = two_sources(7);
    let mut other = schedule(vec![
        Task::new(1, 10, 5, 0, true).unwrap(),
        Task::new(2, 6, 3, 0, true).unwrap(),
    ]);
    assert_eq!(other.check_with_graph(&narrow), Ok(false));
}

#[test]
fn finding_is_whether_any_arc_is_ever_overloaded() {
    let shared = arc(3, 9, 2, 7);
    let side = arc(2, 3, 1, 4);
    let mut graph = Graph::new(9);
    graph.add_route(vec![arc(1, 3, 3, 10), shared]);
    graph.add_route(vec![side, shared]);
    graph.add_route(vec![arc(5, 2, 0, 9), side, shared]);
    let routes = graph.routes().clone();
    for start_two in 0..6u64 {
        for start_five in 0..6u64 {
            for rate_five in 1..4u64 {
                let tasks = vec![
                    task(1, 10, 5, 0),
                    task(2, 6, 3, start_two),
                    task(5, 4, rate_five, start_five),
                ];
                let mut overloaded = false;
                for t in 0..40u64 {
                    for examined in [arc(1, 3, 3, 10), shared, side, arc(5, 2, 0, 9)] {
                        let mut demand = 0;
                        for route in &routes {
                            let walker = tasks
                                .iter()
                                .find(|task| task.node_id_to_evac() == route[0].start_id)
                                .unwrap();
                            let mut delay = 0;
                            for crossed in route {
                                if *crossed == examined {
                                    demand += walker.delayed_by(delay).unwrap().demand_at(t);
                                }
                                delay += crossed.length;
                            }
                        }
                        overloaded = overloaded || demand > examined.capacity;
                    }
                }
                let mut solution = schedule(tasks);
                assert_eq!(solution.check_with_graph(&graph), Ok(!overloaded));
            }
        }
    }
}

#[test]
fn duplicate_has_ledgers_of_its_own() {
    let mut validator = Validator::new();
    let first = arc(1, 2, 3, 10);
    let second = arc(2, 3, 2, 10);
    assert_eq!(validator.schedule_route(&vec![first, second], task(1, 10, 5, 0)), Ok(true));
    let mut copy = validator.duplicate();
    assert_eq!(windows(&copy.tasks_on(first)), vec![(1, 0)]);
    assert_eq!(windows(&copy.tasks_on(second)), vec![(1, 3)]);
    assert_eq!(copy.schedule(second, task(7, 4, 4, 20)), AddTaskResult::Admitted);
    assert_eq!(windows(&copy.tasks_on(second)), vec![(1, 3), (7, 20)]);
    assert_eq!(windows(&validator.tasks_on(second)), vec![(1, 3)]);
    assert_eq!(copy.latest_end_on(second), 21);
    assert_eq!(validator.latest_end_on(second), 5);
    assert_eq!(validator.latest_end_on(first), 2);
    assert_eq!(validator.latest_end_on(arc(8, 9, 1, 1)), 0);
}

#[test]
fn no_valid_schedule_is_through_before_the_bounds() {
    let graph = two_sources(7);
    let (latest_bound, summed_bound) = graph.get_bounds().unwrap();
    let lengths: Vec<u64> =
        graph.routes().iter().map(|route| route.iter().map(|arc| arc.length).sum()).collect();
    let mut found = 0;
    for rate_one in 1..12u64 {
        for rate_two in 1..9u64 {
            for start_two in 0..5u64 {
                let tasks = vec![task(1, 10, rate_one, 0), task(2, 6, rate_two, start_two)];
                let last_units: Vec<u64> =
                    tasks.iter().zip(lengths.iter()).map(|(task, l)| task.end() + l - 1).collect();
                let mut solution = schedule(tasks);
                if solution.check_with_graph(&graph) == Ok(true) {
                    found += 1;
                    assert!(*last_units.iter().max().unwrap() >= latest_bound);
                    assert!(last_units.iter().sum::<u64>() >= summed_bound);
                }
            }
        }
    }
    assert!(found > 20);
    let mut fastest = schedule(vec![task(1, 10, 7, 0), task(2, 6, 6, 4)]);
    assert_eq!(fastest.check_with_graph(&graph), Ok(true));
    assert_eq!((latest_bound, summed_bound), (6, 10));
}
