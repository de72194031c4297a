use evac_routes::text::{parse_number, parse_numbers, split_lines, split_tokens};
use evac_routes::writer::{write_line, write_number, write_row};
use evac_routes::{Graph, Solution, Task};

const GRAPH: &[u8] = b"c nodes\n2 4\n1 10 5 0 3 4\n2 6 3 0 3 4\n\
c arcs\n5 3\n1 3 100 3 10\n3 2 90 2 8\n3 4 80 2 7\n";

fn graph() -> Graph {
    Graph::parse(GRAPH).unwrap()
}

fn numeral(n: u64) -> Vec<u8> {
    let mut out = Vec::new();
    write_number(&mut out, n);
    out
}

fn tokens_by_line(text: &[u8]) -> Vec<Vec<Vec<u8>>> {
    split_lines(text).iter().map(|line| split_tokens(line)).collect()
}

fn same_schedule(one: &Solution, other: &Solution) -> bool {
    let same_task = |a: &Task, b: &Task| {
        a.node_id_to_evac() == b.node_id_to_evac()
            && a.total_people() == b.total_people()
            && a.evac_rate() == b.evac_rate()
            && a.start_offset() == b.start_offset()
            && a.task_length() == b.task_length()
            && a.is_valid() == b.is_valid()
    };
    one.graph_name() == other.graph_name()
        && one.nb_of_evac_nodes() == other.nb_of_evac_nodes()
        && one.tasks().len() == other.tasks().len()
        && one.tasks().iter().zip(other.tasks().iter()).all(|(a, b)| same_task(a, b))
        && one.is_valid() == other.is_valid()
        && one.obj_value() == other.obj_value()
        && one.evaluation_time() == other.evaluation_time()
        && one.method() == other.method()
        && one.comment() == other.comment()
}

#[test]
fn numbers_are_written_in_decimal() {
    assert_eq!(numeral(0), b"0".to_vec());
    assert_eq!(numeral(7), b"7".to_vec());
    assert_eq!(numeral(10), b"10".to_vec());
    assert_eq!(numeral(1234567890), b"1234567890".to_vec());
    assert_eq!(numeral(u64::MAX), b"18446744073709551615".to_vec());
    let mut out = b"x".to_vec();
    write_number(&mut out, 42);
    assert_eq!(out, b"x42".to_vec());
}

#[test]
fn written_number_is_read_as_it_was() {
    let mut n: u64 = 1;
    for _ in 0..64 {
        for value in [n - 1, n, n + 1, n.wrapping_mul(3)] {
            assert_eq!(parse_number(&numeral(value)), Some(value));
        }
        n = n.wrapping_mul(2);
    }
    assert_eq!(parse_number(&numeral(u64::MAX)), Some(u64::MAX));
}

#[test]
fn rows_are_written_with_one_blank_between_numbers() {
    let mut out = Vec::new();
    write_row(&mut out, &vec![1, 20, 300]);
    write_row(&mut out, &vec![]);
    write_row(&mut out, &vec![0]);
    assert_eq!(out, b"1 20 300\n\n0\n".to_vec());
    assert_eq!(parse_numbers(&b"1 20 300".to_vec()), Some(vec![1, 20, 300]));
}

#[test]
fn lines_are_written_with_a_line_feed() {
    let mut out = Vec::new();
    write_line(&mut out, &b"a b".to_vec());
    write_line(&mut out, &b"".to_vec());
    assert_eq!(out, b"a b\n\n".to_vec());
}

#[test]
fn schedule_is_written() {
    let solution = Solution::from_parts(
        b"two sources".to_vec(),
        2,
        vec![Task::new(1, 10, 5, 0, false).unwrap(), Task::new(2, 6, 3, 3, false).unwrap()],
        true,
        7,
        12,
        b"by hand".to_vec(),
        b"nothing to add".to_vec(),
    );
    assert_eq!(
        solution.to_text(),
        b"two sources\n2\n1 5 0\n2 3 3\nvalid\n7\n12\nby hand\nnothing to add\n".to_vec()
    );
    assert_eq!(Solution::new().to_text(), b"\n0\ninvalid\n0\n0\n\n\n".to_vec());
}

#[test]
fn written_schedule_is_read_as_it_was() {
    let graph = graph();
    for valid in [true, false] {
        let solution = Solution::from_parts(
            b" a name ".to_vec(),
            2,
            vec![Task::new(2, 6, 4, 9, false).unwrap(), Task::new(1, 10, 1, 0, false).unwrap()],
            valid,
            u64::MAX,
            0,
            b"".to_vec(),
            b"1 2 3".to_vec(),
        );
        let read = Solution::parse(&solution.to_text(), &graph).unwrap();
        assert!(same_schedule(&read, &solution));
    }
    let empty = Solution::new();
    assert!(same_schedule(&Solution::parse(&empty.to_text(), &graph).unwrap(), &empty));
}

#[test]
fn tidy_text_is_written_as_it_was() {
    let graph = graph();
    let text: &[u8] = b"two sources\n2\n1 5 0\n2 3 3\ninvalid\n7\n12\nby hand\nnothing to add\n";
    assert_eq!(Solution::parse(text, &graph).unwrap().to_text(), text.to_vec());
}

#[test]
fn text_read_and_written_keeps_its_tokens() {
    let graph = graph();
    let text: &[u8] =
        b"two  sources \r\n 2\r\n1   5\t0\r\n  2 3 3  \r\n\
\x20valid \r\n7 \r\n 12\r\n by  hand\r\n\r\n";
    let written = Solution::parse(text, &graph).unwrap().to_text();
    assert_ne!(written, text.to_vec());
    assert_eq!(tokens_by_line(&written), tokens_by_line(text));
    assert_eq!(
        written,
        b"two  sources \n2\n1 5 0\n2 3 3\nvalid\n7\n12\n by  hand\n\n".to_vec()
    );
}

#[test]
fn numerals_with_zeros_in_front_are_written_plain() {
    let graph = graph();
    let text: &[u8] = b"g\n01\n1 005 00\nvalid\n07\n0\nm\nc\n";
    let written = Solution::parse(text, &graph).unwrap().to_text();
    assert_eq!(written, b"g\n1\n1 5 0\nvalid\n7\n0\nm\nc\n".to_vec());
}

#[test]
fn claim_other_than_valid_is_written_as_invalid() {
    let graph = graph();
    let text: &[u8] = b"g\n0\nno\n1\n2\nm\nc\n";
    let written = Solution::parse(text, &graph).unwrap().to_text();
    assert_eq!(written, b"g\n0\ninvalid\n1\n2\nm\nc\n".to_vec());
}
