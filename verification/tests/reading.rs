use evac_routes::text::{parse_number, parse_numbers, split_lines, split_tokens};
use evac_routes::{Arc, Error, Graph, Solution};

const GRAPH: &[u8] = b"c nodes\n2 4\n1 10 5 0 3 4\n2 6 3 0 3 4\n\
c arcs\n5 3\n1 3 100 3 10\n3 2 90 2 8\n3 4 80 2 7\n";

const SOLUTION: &[u8] = b"two sources\n2\n1 5 0\n2 3 3\nvalid\n7\n12\nby hand\nnothing to add\n";

fn graph() -> Graph {
    Graph::parse(GRAPH).unwrap()
}

fn lines_of(text: &[u8]) -> Vec<String> {
    split_lines(text).into_iter().map(|line| String::from_utf8(line).unwrap()).collect()
}

fn tokens_of(line: &[u8]) -> Vec<String> {
    split_tokens(&line.to_vec())
        .into_iter()
        .map(|token| String::from_utf8(token).unwrap())
        .collect()
}

#[test]
fn lines_end_at_line_feeds() {
    assert_eq!(lines_of(b"a\nbc\n"), vec!["a", "bc"]);
    assert_eq!(lines_of(b"a\nbc"), vec!["a", "bc"]);
    assert_eq!(lines_of(b""), Vec::<String>::new());
    assert_eq!(lines_of(b"\n"), vec![""]);
    assert_eq!(lines_of(b"\n\na\n\n"), vec!["", "", "a", ""]);
    assert_eq!(lines_of(b"a b \n c"), vec!["a b ", " c"]);
}

#[test]
fn carriage_return_before_a_line_feed_is_dropped() {
    assert_eq!(lines_of(b"a\r\nbc\r\n"), vec!["a", "bc"]);
    assert_eq!(lines_of(b"a\r"), vec!["a"]);
    assert_eq!(lines_of(b"a\r\r\n"), vec!["a\r"]);
    assert_eq!(lines_of(b"\ra\n"), vec!["\ra"]);
    assert_eq!(lines_of(b"\r\n"), vec![""]);
}

#[test]
fn tokens_are_runs_without_white_space() {
    assert_eq!(tokens_of(b"1 22 333"), vec!["1", "22", "333"]);
    assert_eq!(tokens_of(b"  1\t22 \r 333  "), vec!["1", "22", "333"]);
    assert_eq!(tokens_of(b""), Vec::<String>::new());
    assert_eq!(tokens_of(b" \t "), Vec::<String>::new());
    assert_eq!(tokens_of(b"a"), vec!["a"]);
    assert_eq!(tokens_of(b"a,b c"), vec!["a,b", "c"]);
    assert_eq!(tokens_of(b"a\x0bb\x0cc"), vec!["a", "b", "c"]);
}

#[test]
fn numbers_are_decimal_numerals_that_fit() {
    assert_eq!(parse_number(&b"0".to_vec()), Some(0));
    assert_eq!(parse_number(&b"7".to_vec()), Some(7));
    assert_eq!(parse_number(&b"1234567890".to_vec()), Some(1234567890));
    assert_eq!(parse_number(&b"007".to_vec()), Some(7));
    assert_eq!(parse_number(&b"18446744073709551615".to_vec()), Some(u64::MAX));
    assert_eq!(parse_number(&b"00018446744073709551615".to_vec()), Some(u64::MAX));
    assert_eq!(parse_number(&b"18446744073709551616".to_vec()), None);
    assert_eq!(parse_number(&b"18446744073709551620".to_vec()), None);
    assert_eq!(parse_number(&b"99999999999999999999".to_vec()), None);
    assert_eq!(parse_number(&b"184467440737095516150".to_vec()), None);
    assert_eq!(parse_number(&b"".to_vec()), None);
    assert_eq!(parse_number(&b"-1".to_vec()), None);
    assert_eq!(parse_number(&b"+1".to_vec()), None);
    assert_eq!(parse_number(&b"1a".to_vec()), None);
    assert_eq!(parse_number(&b"a1".to_vec()), None);
    assert_eq!(parse_number(&b"1.5".to_vec()), None);
    assert_eq!(parse_number(&b"1 ".to_vec()), None);
    assert_eq!(parse_number(&b"/".to_vec()), None);
    assert_eq!(parse_number(&b":".to_vec()), None);
}

#[test]
fn row_of_numbers() {
    assert_eq!(parse_numbers(&b" 1 22  333 ".to_vec()), Some(vec![1, 22, 333]));
    assert_eq!(parse_numbers(&b"".to_vec()), Some(vec![]));
    assert_eq!(parse_numbers(&b"1 x 3".to_vec()), None);
    assert_eq!(parse_numbers(&b"1 2 18446744073709551616".to_vec()), None);
}

#[test]
fn graph_is_read() {
    let graph = graph();
    assert_eq!(graph.safe_id(), 4);
    let first = Arc { start_id: 1, end_id: 3, length: 3, capacity: 10, due_date: 100 };
    let second = Arc { start_id: 2, end_id: 3, length: 2, capacity: 8, due_date: 90 };
    let shared = Arc { start_id: 3, end_id: 4, length: 2, capacity: 7, due_date: 80 };
    assert_eq!(graph.routes(), &vec![vec![first, shared], vec![second, shared]]);
    assert_eq!(graph.node(1).unwrap().population, Some(10));
    assert_eq!(graph.node(1).unwrap().max_rate, Some(5));
    assert_eq!(graph.node(2).unwrap().population, Some(6));
    assert_eq!(graph.node(2).unwrap().max_rate, Some(3));
    assert_eq!(graph.node(3).unwrap().population, None);
    assert_eq!(graph.node(3).unwrap().incoming, vec![first, second]);
    assert_eq!(graph.node(4).unwrap().incoming, vec![shared]);
    assert_eq!(graph.get_bounds(), Some((6, 10)));
    assert_eq!(graph.drawing().nodes, vec![1, 2, 3, 4]);
    assert_eq!(graph.drawing().edges, vec![(1, 3), (2, 3), (3, 4)]);
}

#[test]
fn graph_with_incidental_white_space() {
    let text = b"\r\n 2   4 \r\n1 10 5 0 3 4\r\n\t2 6 3 0 3 4\r\nanything\r\n5 3\r\n\
1 3 100 3 10\r\n3 2 90 2 8\r\n3 4 80 2 7\r\nnot read\r\n";
    let graph = Graph::parse(text).unwrap();
    assert_eq!(graph.routes(), self::graph().routes());
    assert_eq!(graph.safe_id(), 4);
}

#[test]
fn graph_without_nodes_or_arcs() {
    let graph = Graph::parse(b"\n0 4\n\n0 0\n").unwrap();
    assert_eq!(graph.safe_id(), 4);
    assert!(graph.routes().is_empty());
    assert!(graph.drawing().nodes.is_empty());
}

#[test]
fn malformed_graph_names_the_line() {
    let bad = |text: &[u8]| Graph::parse(text).unwrap_err();
    assert_eq!(bad(b""), Error::MalformedInput { line: 2 });
    assert_eq!(bad(b"c\n"), Error::MalformedInput { line: 2 });
    assert_eq!(bad(b"c\n2\n"), Error::MalformedInput { line: 2 });
    assert_eq!(bad(b"c\n2 4 6\n"), Error::MalformedInput { line: 2 });
    assert_eq!(bad(b"c\n2 x\n"), Error::MalformedInput { line: 2 });
    assert_eq!(bad(b"c\n2 4\n"), Error::MalformedInput { line: 3 });
    assert_eq!(bad(b"c\n2 4\n1 10 5 0 3\n2 6 3 0\n"), Error::MalformedInput { line: 4 });
    assert_eq!(bad(b"c\n2 4\n1 10 5 0 3\n2 6 3 0 -3\n"), Error::MalformedInput { line: 4 });
    assert_eq!(bad(b"c\n1 4\n1 10 5 0 4\n"), Error::MalformedInput { line: 5 });
    assert_eq!(bad(b"c\n1 4\n1 10 5 0 4\nc\n"), Error::MalformedInput { line: 5 });
    assert_eq!(bad(b"c\n1 4\n1 10 5 0 4\nc\n1\n"), Error::MalformedInput { line: 5 });
    assert_eq!(bad(b"c\n0 4\nc\n"), Error::MalformedInput { line: 4 });
    assert_eq!(bad(b"c\n1 4\n1 10 5 0 4\nc\n1 1\n"), Error::MalformedInput { line: 6 });
    assert_eq!(
        bad(b"c\n1 4\n1 10 5 0 4\nc\n1 2\n1 4 0 1 1\n1 4 0 1\n"),
        Error::MalformedInput { line: 7 }
    );
    assert_eq!(
        bad(b"c\n1 4\n1 10 5 0 4\nc\n1 1\n1 4 0 1 1 1\n"),
        Error::MalformedInput { line: 6 }
    );
    assert_eq!(
        bad(b"c\n18446744073709551615 4\n1 10 5 0 4\n"),
        Error::MalformedInput { line: 4 }
    );
    assert_eq!(bad(b"c\n18446744073709551616 4\n"), Error::MalformedInput { line: 2 });
}

#[test]
fn graph_with_a_path_through_a_missing_node() {
    assert_eq!(
        Graph::parse(b"c\n1 4\n1 10 5 0 3 4\nc\n1 1\n1 3 100 3 10\n").unwrap_err(),
        Error::MissingNode { id: 3 }
    );
    assert_eq!(
        Graph::parse(b"c\n1 4\n1 10 5 0 3 4\nc\n1 0\n").unwrap_err(),
        Error::MissingNode { id: 1 }
    );
}

#[test]
fn schedule_is_read() {
    let solution = Solution::parse(SOLUTION, &graph()).unwrap();
    assert_eq!(solution.graph_name(), &b"two sources".to_vec());
    assert_eq!(solution.nb_of_evac_nodes(), 2);
    assert_eq!(solution.tasks().len(), 2);
    let first = solution.tasks()[0];
    assert_eq!(first.node_id_to_evac(), 1);
    assert_eq!(first.total_people(), 10);
    assert_eq!(first.evac_rate(), 5);
    assert_eq!(first.start_offset(), 0);
    assert_eq!(first.task_length(), 2);
    assert!(!first.is_valid());
    let second = solution.tasks()[1];
    assert_eq!(second.node_id_to_evac(), 2);
    assert_eq!(second.total_people(), 6);
    assert_eq!(second.evac_rate(), 3);
    assert_eq!(second.start_offset(), 3);
    assert_eq!(second.task_length(), 2);
    assert!(solution.is_valid());
    assert_eq!(solution.obj_value(), 7);
    assert_eq!(solution.evaluation_time(), 12);
    assert_eq!(solution.method(), &b"by hand".to_vec());
    assert_eq!(solution.comment(), &b"nothing to add".to_vec());
}

#[test]
fn schedule_that_was_read_is_checked() {
    let graph = graph();
    let mut solution = Solution::parse(SOLUTION, &graph).unwrap();
    assert_eq!(solution.check_with_graph(&graph), Ok(true));
    assert!(solution.is_valid());
    let mut clash =
        Solution::parse(b"two sources\n2\n1 5 0\n2 3 1\nvalid\n7\n12\nm\nc\n", &graph).unwrap();
    assert!(clash.is_valid());
    assert_eq!(clash.check_with_graph(&graph), Ok(false));
    assert!(!clash.is_valid());
}

#[test]
fn claim_of_validity_is_the_one_word() {
    let graph = graph();
    let claim = |line: &str| {
        let text = format!("g\n0\n{}\n1\n2\nm\nc\n", line);
        Solution::parse(text.as_bytes(), &graph).unwrap().is_valid()
    };
    assert!(claim("valid"));
    assert!(claim("  valid \t"));
    assert!(!claim("invalid"));
    assert!(!claim("Valid"));
    assert!(!claim("valid valid"));
    assert!(!claim("valid 1"));
    assert!(!claim("valide"));
    assert!(!claim("vali"));
    assert!(!claim(""));
    assert!(!claim("0"));
}

#[test]
fn free_lines_are_kept_as_they_are() {
    let graph = graph();
    let solution =
        Solution::parse(b"  a  name \r\n0\r\nvalid\r\n1\r\n2\r\n\r\n 3 4 \r\nmore\n", &graph)
            .unwrap();
    assert_eq!(solution.graph_name(), &b"  a  name ".to_vec());
    assert_eq!(solution.method(), &b"".to_vec());
    assert_eq!(solution.comment(), &b" 3 4 ".to_vec());
    assert!(solution.tasks().is_empty());
}

#[test]
fn malformed_schedule_names_the_line() {
    let graph = graph();
    let bad = |text: &[u8]| Solution::parse(text, &graph).unwrap_err();
    assert_eq!(bad(b""), Error::MalformedInput { line: 1 });
    assert_eq!(bad(b"g\n"), Error::MalformedInput { line: 2 });
    assert_eq!(bad(b"g\n1 2\n"), Error::MalformedInput { line: 2 });
    assert_eq!(bad(b"g\nx\n"), Error::MalformedInput { line: 2 });
    assert_eq!(bad(b"g\n2\n1 5 0\n"), Error::MalformedInput { line: 4 });
    assert_eq!(bad(b"g\n2\n1 5 0\n2 3\n"), Error::MalformedInput { line: 4 });
    assert_eq!(bad(b"g\n2\n1 5 0\n2 3 0 0\n"), Error::MalformedInput { line: 4 });
    assert_eq!(bad(b"g\n2\n1 5 0\n2 3 0\n"), Error::MalformedInput { line: 5 });
    assert_eq!(bad(b"g\n2\n1 5 0\n2 3 0\nvalid\n"), Error::MalformedInput { line: 6 });
    assert_eq!(bad(b"g\n2\n1 5 0\n2 3 0\nvalid\nx\n"), Error::MalformedInput { line: 6 });
    assert_eq!(bad(b"g\n2\n1 5 0\n2 3 0\nvalid\n1\n"), Error::MalformedInput { line: 7 });
    assert_eq!(bad(b"g\n2\n1 5 0\n2 3 0\nvalid\n1\n2 3\n"), Error::MalformedInput { line: 7 });
    assert_eq!(bad(b"g\n2\n1 5 0\n2 3 0\nvalid\n1\n2\n"), Error::MalformedInput { line: 8 });
    assert_eq!(bad(b"g\n2\n1 5 0\n2 3 0\nvalid\n1\n2\nm\n"), Error::MalformedInput { line: 9 });
    assert_eq!(bad(b"g\n0\n"), Error::MalformedInput { line: 3 });
}

#[test]
fn schedule_for_a_node_without_population() {
    let graph = graph();
    let bad = |text: &[u8]| Solution::parse(text, &graph).unwrap_err();
    assert_eq!(bad(b"g\n1\n9 5 0\nvalid\n1\n2\nm\nc\n"), Error::MissingNode { id: 9 });
    assert_eq!(bad(b"g\n1\n3 5 0\nvalid\n1\n2\nm\nc\n"), Error::MissingNode { id: 3 });
    assert_eq!(bad(b"g\n2\n9 5 0\nx\n"), Error::MissingNode { id: 9 });
    assert_eq!(bad(b"g\n2\n1 5 0 7\n9 5 0\n"), Error::MalformedInput { line: 3 });
}

#[test]
fn schedule_with_a_task_that_cannot_be_made() {
    let graph = graph();
    let bad = |text: &[u8]| Solution::parse(text, &graph).unwrap_err();
    assert_eq!(bad(b"g\n1\n1 0 0\nvalid\n1\n2\nm\nc\n"), Error::ZeroRateTask { node_id: 1 });
    assert_eq!(bad(b"g\n2\n2 0 4\n9 1 1\n"), Error::ZeroRateTask { node_id: 2 });
    assert_eq!(
        bad(b"g\n1\n1 5 18446744073709551614\nvalid\n1\n2\nm\nc\n"),
        Error::TimeOverflow { node_id: 1 }
    );
    assert_eq!(
        Solution::parse(b"g\n1\n1 5 18446744073709551613\nvalid\n1\n2\nm\nc\n", &graph)
            .unwrap()
            .tasks()[0]
            .end(),
        u64::MAX
    );
}
