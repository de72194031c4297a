//! The text form of graphs and of schedules.
//!
//! A graph is written as a heading line; a line with the number of
//! evacuation nodes and the id of the safe node; one line for each evacuation
//! node, with its id, its population, its largest rate, a number that is not
//! read, and the ids of the nodes on its way to safety; a second heading
//! line; a line with a number that is not read and the number of arcs; and
//! one line for each arc, with its two nodes, its due date, its length and
//! its capacity.
//!
//! A schedule is written as a line with the name of its graph; a line with
//! the number of its tasks; one line for each task, with the node that it
//! evacuates, its rate and its start; a line with the word `valid` or with
//! anything else; a line with the value of the objective; a line with the
//! time that the evaluation took; a line that names the method; and a line
//! of comment.
use vstd::prelude::*;
use crate::assemble::{built, source_models, EvacNode, EvacNodeModel};
use crate::error::Error;
use crate::graph::{Arc, Graph, GraphModel, NodeModel};
use crate::resource::models;
use crate::solution::{Solution, SolutionModel};
use crate::task::{made, Task, TaskModel};
use crate::text::{
    line_number, lines, malformed, number_of_line, read_row, read_rows, row_at, rows_at, seqs,
    split_lines, split_tokens, tokens,
};

verus! {

/// The evacuation node that a row of five or more numbers declares.
pub open spec fn source_of(row: Seq<u64>) -> EvacNodeModel {
    EvacNodeModel { id: row[0], population: row[1], max_rate: row[2], path: row.skip(4) }
}

/// The arc that a row of five numbers declares.
pub open spec fn arc_of(row: Seq<u64>) -> Arc {
    Arc { start_id: row[0], end_id: row[1], due_date: row[2], length: row[3], capacity: row[4] }
}

/// What the text of a graph declares.
pub struct GraphText {
    pub safe_id: u64,
    pub sources: Seq<EvacNodeModel>,
    pub arcs: Seq<Arc>,
}

/// What `lines` declare of a graph, or the error of the first line that does
/// not have the shape that its place asks for. The two heading lines may hold
/// anything; lines after the last arc are not read.
pub open spec fn graph_text(lines: Seq<Seq<u8>>) -> Result<GraphText, Error> {
    match row_at(lines, 1, 2, true) {
        None => Err(malformed(1)),
        Some(head) => match rows_at(lines, 2, head[0] as nat, 5, false) {
            Err(error) => Err(error),
            Ok(sources) => {
                let at = 3 + head[0];
                match row_at(lines, at, 2, true) {
                    None => Err(malformed(at)),
                    Some(count) => match rows_at(lines, at + 1, count[1] as nat, 5, true) {
                        Err(error) => Err(error),
                        Ok(arcs) => Ok(
                            GraphText {
                                safe_id: head[1],
                                sources: Seq::new(sources.len(), |i: int| source_of(sources[i])),
                                arcs: Seq::new(arcs.len(), |i: int| arc_of(arcs[i])),
                            },
                        ),
                    },
                }
            },
        }
    }
}

/// The graph that `text` declares.
pub open spec fn parsed_graph(text: Seq<u8>) -> Result<GraphModel, Error> {
    match graph_text(lines(text)) {
        Err(error) => Err(error),
        Ok(declared) => built(declared.safe_id, declared.sources, declared.arcs),
    }
}

/// The rows that `rows_at` gives are as many as were asked for, and each has
/// the shape asked for.
pub proof fn lemma_rows_at_shape(
    lines: Seq<Seq<u8>>,
    from: int,
    count: nat,
    least: nat,
    fixed: bool,
)
    requires
        rows_at(lines, from, count, least, fixed) is Ok,
    ensures
        rows_at(lines, from, count, least, fixed)->Ok_0.len() == count,
        forall|i: int|
            0 <= i < count ==> row_at(lines, from + i, least, fixed) == Some(
                #[trigger] rows_at(lines, from, count, least, fixed)->Ok_0[i],
            ),
    decreases count,
{
    if count > 0 {
        lemma_rows_at_shape(lines, from, (count - 1) as nat, least, fixed);
    }
}

/// The numbers of `row` from index `from` on.
fn tail(row: &Vec<u64>, from: usize) -> (result: Vec<u64>)
    requires
        from <= row@.len(),
    ensures
        result@ == row@.skip(from as int),
{
    let mut result: Vec<u64> = Vec::new();
    let mut i: usize = from;
    while i < row.len()
        invariant
            from <= i <= row@.len(),
            result@ == row@.subrange(from as int, i as int),
        decreases row.len() - i,
    {
        result.push(row[i]);
        i += 1;
    }
    result
}

impl Graph {
    /// Reads a graph from its text.
    ///
    /// The first line that does not have the shape that its place asks for
    /// is reported by its number. A path through a node that is missing, or
    /// that no arc leaves, is reported by the id of the node.
    pub fn parse(text: &[u8]) -> (result: Result<Graph, Error>)
        ensures
            match result {
                Ok(graph) => parsed_graph(text@) == Ok::<GraphModel, Error>(graph@),
                Err(error) => parsed_graph(text@) == Err::<GraphModel, Error>(error),
            },
    {
        let all: Vec<Vec<u8>> = split_lines(text);
        let n: usize = all.len();
        let head: Vec<u64> = match read_row(&all, 1, 2, true) {
            Err(error) => {
                return Err(error);
            },
            Ok(head) => head,
        };
        let count: u64 = head[0];
        let safe_id: u64 = head[1];
        let source_rows: Vec<Vec<u64>> = match read_rows(&all, 2, count, 5, false) {
            Err(error) => {
                return Err(error);
            },
            Ok(rows) => rows,
        };
        proof {
            lemma_rows_at_shape(seqs(all@), 2, count as nat, 5, false);
        }
        let heading: usize = 2 + count as usize;
        if heading >= n || heading + 1 >= n {
            return Err(Error::MalformedInput { line: number_after(heading) });
        }
        let at: usize = heading + 1;
        let arc_head: Vec<u64> = match read_row(&all, at, 2, true) {
            Err(error) => {
                return Err(error);
            },
            Ok(head) => head,
        };
        let arc_rows: Vec<Vec<u64>> = match read_rows(&all, at + 1, arc_head[1], 5, true) {
            Err(error) => {
                return Err(error);
            },
            Ok(rows) => rows,
        };
        proof {
            lemma_rows_at_shape(seqs(all@), at + 1, arc_head[1] as nat, 5, true);
        }
        let ghost declared = graph_text(lines(text@))->Ok_0;
        let mut sources: Vec<EvacNode> = Vec::new();
        let mut i: usize = 0;
        while i < source_rows.len()
            invariant
                i <= source_rows.len(),
                forall|j: int|
                    0 <= j < source_rows@.len() ==> (#[trigger] seqs(source_rows@)[j]).len() >= 5,
                source_models(sources@) == Seq::new(
                    i as nat,
                    |j: int| source_of(seqs(source_rows@)[j]),
                ),
            decreases source_rows.len() - i,
        {
            let row: &Vec<u64> = &source_rows[i];
            assert(seqs(source_rows@)[i as int] == row@);
            let source = EvacNode {
                id: row[0],
                population: row[1],
                max_rate: row[2],
                path: tail(row, 4),
            };
            assert(source_models(sources@.push(source)) =~= source_models(sources@).push(source@));
            sources.push(source);
            assert(source_models(sources@) =~= Seq::new(
                (i + 1) as nat,
                |j: int| source_of(seqs(source_rows@)[j]),
            ));
            i += 1;
        }
        let mut arcs: Vec<Arc> = Vec::new();
        let mut k: usize = 0;
        while k < arc_rows.len()
            invariant
                k <= arc_rows.len(),
                forall|j: int|
                    0 <= j < arc_rows@.len() ==> (#[trigger] seqs(arc_rows@)[j]).len() == 5,
                arcs@ == Seq::new(k as nat, |j: int| arc_of(seqs(arc_rows@)[j])),
            decreases arc_rows.len() - k,
        {
            let row: &Vec<u64> = &arc_rows[k];
            assert(seqs(arc_rows@)[k as int] == row@);
            let arc = Arc {
                start_id: row[0],
                end_id: row[1],
                due_date: row[2],
                length: row[3],
                capacity: row[4],
            };
            arcs.push(arc);
            assert(arcs@ =~= Seq::new((k + 1) as nat, |j: int| arc_of(seqs(arc_rows@)[j])));
            k += 1;
        }
        assert(source_models(sources@) =~= declared.sources);
        assert(arcs@ =~= declared.arcs);
        Graph::build(safe_id, &sources, &arcs)
    }
}

/// The word by which a schedule claims to be valid.
pub open spec fn valid_word() -> Seq<u8> {
    seq![118u8, 97u8, 108u8, 105u8, 100u8]
}

/// Whether `line` claims validity: whether the word `valid` is its one
/// token.
pub open spec fn claims_validity(line: Seq<u8>) -> bool {
    tokens(line) == seq![valid_word()]
}

/// The population of the node `id`, where `nodes` holds the node and the node
/// has one.
pub open spec fn population_at(nodes: Map<u64, NodeModel>, id: u64) -> Option<u64> {
    if nodes.contains_key(id) {
        nodes[id].population
    } else {
        None
    }
}

/// The task that a row of three numbers declares: the node, the rate and the
/// start are written, and the population is that of the node in `nodes`.
pub open spec fn task_of_row(nodes: Map<u64, NodeModel>, row: Seq<u64>) -> Result<
    TaskModel,
    Error,
> {
    match population_at(nodes, row[0]) {
        None => Err(Error::MissingNode { id: row[0] }),
        Some(population) => made(row[0], population, row[1], row[2] as nat, false),
    }
}

/// The tasks of the `count` lines from `from` on, or the first error: each
/// line in turn must hold three numbers, name a node with a population, and
/// make a task.
pub open spec fn tasks_at(
    lines: Seq<Seq<u8>>,
    nodes: Map<u64, NodeModel>,
    from: int,
    count: nat,
) -> Result<Seq<TaskModel>, Error>
    decreases count,
{
    if count == 0 {
        Ok(Seq::empty())
    } else {
        match tasks_at(lines, nodes, from, (count - 1) as nat) {
            Err(error) => Err(error),
            Ok(tasks) => match row_at(lines, from + count - 1, 3, true) {
                None => Err(malformed(from + count - 1)),
                Some(row) => match task_of_row(nodes, row) {
                    Err(error) => Err(error),
                    Ok(task) => Ok(tasks.push(task)),
                },
            },
        }
    }
}

/// The schedule that `lines` declare for a graph with these `nodes`, or the
/// first error. Lines after the comment are not read.
pub open spec fn solution_text(lines: Seq<Seq<u8>>, nodes: Map<u64, NodeModel>) -> Result<
    SolutionModel,
    Error,
> {
    if lines.len() == 0 {
        Err(malformed(0))
    } else {
        match row_at(lines, 1, 1, true) {
            None => Err(malformed(1)),
            Some(head) => match tasks_at(lines, nodes, 2, head[0] as nat) {
                Err(error) => Err(error),
                Ok(tasks) => {
                    let at = 2 + head[0];
                    if at >= lines.len() {
                        Err(malformed(at))
                    } else {
                        match row_at(lines, at + 1, 1, true) {
                            None => Err(malformed(at + 1)),
                            Some(value) => match row_at(lines, at + 2, 1, true) {
                                None => Err(malformed(at + 2)),
                                Some(time) => if at + 3 >= lines.len() {
                                    Err(malformed(at + 3))
                                } else if at + 4 >= lines.len() {
                                    Err(malformed(at + 4))
                                } else {
                                    Ok(
                                        SolutionModel {
                                            graph_name: lines[0],
                                            nb_of_evac_nodes: head[0],
                                            tasks,
                                            is_valid: claims_validity(lines[at]),
                                            obj_value: value[0],
                                            evaluation_time: time[0],
                                            method: lines[at + 3],
                                            comment: lines[at + 4],
                                        },
                                    )
                                },
                            },
                        }
                    }
                },
            },
        }
    }
}

/// The schedule that `text` declares for a graph with these `nodes`.
pub open spec fn parsed_solution(text: Seq<u8>, nodes: Map<u64, NodeModel>) -> Result<
    SolutionModel,
    Error,
> {
    solution_text(lines(text), nodes)
}

/// The error of the first tasks is the error of all.
pub proof fn lemma_tasks_at_fails(
    lines: Seq<Seq<u8>>,
    nodes: Map<u64, NodeModel>,
    from: int,
    few: nat,
    count: nat,
)
    requires
        few <= count,
        tasks_at(lines, nodes, from, few) is Err,
    ensures
        tasks_at(lines, nodes, from, count) == tasks_at(lines, nodes, from, few),
    decreases count - few,
{
    if few < count {
        lemma_tasks_at_fails(lines, nodes, from, few, (count - 1) as nat);
    }
}

/// Whether `line` claims validity.
fn reads_valid(line: &Vec<u8>) -> (result: bool)
    ensures
        result == claims_validity(line@),
{
    let parts: Vec<Vec<u8>> = split_tokens(line);
    if parts.len() != 1 {
        return false;
    }
    let word: &Vec<u8> = &parts[0];
    assert(seqs(parts@)[0] == word@);
    let result: bool = word.len() == 5 && word[0] == 118 && word[1] == 97 && word[2] == 108
        && word[3] == 105 && word[4] == 100;
    proof {
        if result {
            assert(word@ =~= valid_word());
            assert(seqs(parts@) =~= seq![valid_word()]);
        } else {
            assert(word@ != valid_word());
        }
    }
    result
}

impl Solution {
    /// Reads a schedule from its text. The population of each task is that
    /// of its node in `graph`, and no task is flagged.
    ///
    /// The lines are read in order, and the first that fails ends the
    /// reading: a line that does not have the shape that its place asks for
    /// is reported by its number, a task for a node that `graph` does not
    /// hold or that has no population by the id of the node, and a task that
    /// cannot be made by the reason why.
    #[verifier::loop_isolation(false)]
    pub fn parse(text: &[u8], graph: &Graph) -> (result: Result<Solution, Error>)
        ensures
            match result {
                Ok(solution) => parsed_solution(text@, graph@.nodes) == Ok::<SolutionModel, Error>(
                    solution@,
                ),
                Err(error) => parsed_solution(text@, graph@.nodes) == Err::<SolutionModel, Error>(
                    error,
                ),
            },
    {
        let all: Vec<Vec<u8>> = split_lines(text);
        let n: usize = all.len();
        if n == 0 {
            return Err(Error::MalformedInput { line: 1 });
        }
        let head: Vec<u64> = match read_row(&all, 1, 1, true) {
            Err(error) => {
                return Err(error);
            },
            Ok(head) => head,
        };
        let count: u64 = head[0];
        let mut tasks: Vec<Task> = Vec::new();
        let mut done: u64 = 0;
        let mut index: usize = 2;
        assert(models(tasks@) =~= Seq::<TaskModel>::empty());
        while done < count
            invariant
                done <= count,
                n == all@.len(),
                n >= 2,
                index == 2 + done,
                index <= n,
                tasks_at(seqs(all@), graph@.nodes, 2, done as nat) == Ok::<Seq<TaskModel>, Error>(
                    models(tasks@),
                ),
            decreases count - done,
        {
            proof {
                if tasks_at(seqs(all@), graph@.nodes, 2, (done + 1) as nat) is Err {
                    lemma_tasks_at_fails(
                        seqs(all@),
                        graph@.nodes,
                        2,
                        (done + 1) as nat,
                        count as nat,
                    );
                }
            }
            let row: Vec<u64> = match read_row(&all, index, 3, true) {
                Err(error) => {
                    return Err(error);
                },
                Ok(row) => row,
            };
            let population: u64 = match graph.node(row[0]) {
                None => {
                    return Err(Error::MissingNode { id: row[0] });
                },
                Some(node) => match node.population {
                    None => {
                        return Err(Error::MissingNode { id: row[0] });
                    },
                    Some(population) => population,
                },
            };
            let task: Task = match Task::new(row[0], population, row[1], row[2], false) {
                Err(error) => {
                    return Err(error);
                },
                Ok(task) => task,
            };
            assert(models(tasks@.push(task)) =~= models(tasks@).push(task@));
            tasks.push(task);
            done += 1;
            index += 1;
        }
        let at: usize = index;
        if at >= n {
            return Err(Error::MalformedInput { line: number_of_line(at) });
        }
        let is_valid: bool = reads_valid(&all[at]);
        let value: Vec<u64> = match read_row(&all, at + 1, 1, true) {
            Err(error) => {
                return Err(error);
            },
            Ok(value) => value,
        };
        let time: Vec<u64> = match read_row(&all, at + 2, 1, true) {
            Err(error) => {
                return Err(error);
            },
            Ok(time) => time,
        };
        if at + 3 >= n {
            return Err(Error::MalformedInput { line: number_of_line(at + 3) });
        }
        if at + 4 >= n {
            return Err(Error::MalformedInput { line: number_of_line(at + 4) });
        }
        Ok(
            Solution::from_parts(
                all[0].clone(),
                count,
                tasks,
                is_valid,
                value[0],
                time[0],
                all[at + 3].clone(),
                all[at + 4].clone(),
            ),
        )
    }
}

/// The number by which a reader knows the line after the line at `index`.
fn number_after(index: usize) -> (number: usize)
    ensures
        number == line_number(index + 1),
{
    if index < usize::MAX - 1 {
        index + 2
    } else {
        usize::MAX
    }
}

} // verus!
