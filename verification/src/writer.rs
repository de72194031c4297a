//! The writing of numbers, rows and schedules.
//!
//! A schedule is written as it is read: one line for each part, the numbers
//! of a line with one blank between them, and a line feed behind every line.
use vstd::prelude::*;
use crate::reader::valid_word;
use crate::resource::models;
use crate::solution::{Solution, SolutionModel};
use crate::task::{Task, TaskModel};
use crate::text::{LINE_FEED, ZERO};

verus! {

/// The blank.
pub const BLANK: u8 = 32;

/// The decimal digits that write `n`, without a zero in front.
pub open spec fn digits_of(n: nat) -> Seq<u8>
    decreases n,
{
    if n < 10 {
        seq![(ZERO + n) as u8]
    } else {
        digits_of(n / 10).push((ZERO + n % 10) as u8)
    }
}

/// The numerals of `row`, in order.
pub open spec fn numerals_of(row: Seq<u64>) -> Seq<Seq<u8>> {
    Seq::new(row.len(), |i: int| digits_of(row[i] as nat))
}

/// `words` written one after the other with a blank between each two.
pub open spec fn spaced(words: Seq<Seq<u8>>) -> Seq<u8>
    decreases words.len(),
{
    if words.len() == 0 {
        Seq::empty()
    } else if words.len() == 1 {
        words[0]
    } else {
        spaced(words.drop_last()) + seq![BLANK] + words.last()
    }
}

/// The line that writes `row`: its numerals with a blank between each two.
pub open spec fn written_row(row: Seq<u64>) -> Seq<u8> {
    spaced(numerals_of(row))
}

/// The word by which a written schedule says that it is not valid.
pub open spec fn invalid_word() -> Seq<u8> {
    seq![105u8, 110u8, 118u8, 97u8, 108u8, 105u8, 100u8]
}

/// The three numbers that are written of a task: its node, its rate and its
/// start.
pub open spec fn task_row(task: TaskModel) -> Seq<u64> {
    seq![task.node, task.rate as u64, task.start as u64]
}

/// The lines that write `solution`, in the order in which a schedule is
/// read.
pub open spec fn written_lines(solution: SolutionModel) -> Seq<Seq<u8>> {
    seq![solution.graph_name, written_row(seq![solution.nb_of_evac_nodes])] + Seq::new(
        solution.tasks.len(),
        |i: int| written_row(task_row(solution.tasks[i])),
    ) + seq![
        if solution.is_valid {
            valid_word()
        } else {
            invalid_word()
        },
        written_row(seq![solution.obj_value]),
        written_row(seq![solution.evaluation_time]),
        solution.method,
        solution.comment,
    ]
}

/// `lines` one after the other, each with a line feed behind it.
pub open spec fn joined(lines: Seq<Seq<u8>>) -> Seq<u8>
    decreases lines.len(),
{
    if lines.len() == 0 {
        Seq::empty()
    } else {
        joined(lines.drop_last()) + lines.last() + seq![LINE_FEED]
    }
}

/// The text that writes `solution`.
pub open spec fn written(solution: SolutionModel) -> Seq<u8> {
    joined(written_lines(solution))
}

/// Puts the numeral of `n` behind `out`.
pub fn write_number(out: &mut Vec<u8>, n: u64)
    ensures
        final(out)@ == old(out)@ + digits_of(n as nat),
    decreases n,
{
    if n < 10 {
        out.push(ZERO + n as u8);
    } else {
        write_number(out, n / 10);
        out.push(ZERO + (n % 10) as u8);
    }
}

/// Puts the line that writes `row` behind `out`, with its line feed.
pub fn write_row(out: &mut Vec<u8>, row: &Vec<u64>)
    ensures
        final(out)@ == old(out)@ + written_row(row@) + seq![LINE_FEED],
{
    let ghost words = numerals_of(row@);
    let mut i: usize = 0;
    assert(spaced(words.take(0)) =~= Seq::<u8>::empty());
    assert(out@ =~= old(out)@ + spaced(words.take(0)));
    while i < row.len()
        invariant
            i <= row.len(),
            words == numerals_of(row@),
            out@ == old(out)@ + spaced(words.take(i as int)),
        decreases row.len() - i,
    {
        if i > 0 {
            out.push(BLANK);
        }
        write_number(out, row[i]);
        proof {
            let taken = words.take(i + 1);
            assert(taken.drop_last() =~= words.take(i as int));
            assert(taken.last() == digits_of(row@[i as int] as nat));
            assert(out@ =~= old(out)@ + spaced(taken));
        }
        i += 1;
    }
    assert(words.take(row@.len() as int) =~= words);
    out.push(LINE_FEED);
    assert(out@ =~= old(out)@ + written_row(row@) + seq![LINE_FEED]);
}

/// Puts `line` behind `out`, with its line feed.
pub fn write_line(out: &mut Vec<u8>, line: &Vec<u8>)
    ensures
        final(out)@ == old(out)@ + line@ + seq![LINE_FEED],
{
    let mut i: usize = 0;
    while i < line.len()
        invariant
            i <= line.len(),
            out@ == old(out)@ + line@.take(i as int),
        decreases line.len() - i,
    {
        out.push(line[i]);
        i += 1;
    }
    out.push(LINE_FEED);
}

/// One line more behind joined lines.
proof fn lemma_joined_take(lines: Seq<Seq<u8>>, n: int)
    requires
        0 <= n < lines.len(),
    ensures
        joined(lines.take(n + 1)) == joined(lines.take(n)) + lines[n] + seq![LINE_FEED],
{
    assert(lines.take(n + 1).drop_last() =~= lines.take(n));
}

impl Solution {
    /// The text that writes the schedule: what [`Solution::parse`] reads, with
    /// one blank between the numbers of a line and a line feed behind every
    /// line. The claim is written as `valid` or `invalid`.
    pub fn to_text(&self) -> (text: Vec<u8>)
        ensures
            text@ == written(self@),
    {
        let ghost all = written_lines(self@);
        let tasks: &Vec<Task> = self.tasks();
        let count: usize = tasks.len();
        let mut out: Vec<u8> = Vec::new();
        write_line(&mut out, self.graph_name());
        proof {
            lemma_joined_take(all, 0);
        }
        let mut row: Vec<u64> = Vec::new();
        row.push(self.nb_of_evac_nodes());
        write_row(&mut out, &row);
        proof {
            lemma_joined_take(all, 1);
        }
        let mut i: usize = 0;
        while i < count
            invariant
                i <= count,
                count == tasks@.len(),
                models(tasks@) == self@.tasks,
                all == written_lines(self@),
                out@ == joined(all.take(2 + i)),
            decreases count - i,
        {
            let task: Task = tasks[i];
            let mut row: Vec<u64> = Vec::new();
            row.push(task.node_id_to_evac());
            row.push(task.evac_rate());
            row.push(task.start_offset());
            proof {
                assert(row@ =~= task_row(task@));
                lemma_joined_take(all, 2 + i);
            }
            write_row(&mut out, &row);
            i += 1;
        }
        let ghost at: int = 2 + count;
        let mut word: Vec<u8> = Vec::new();
        if !self.is_valid() {
            word.push(105);
            word.push(110);
        }
        word.push(118);
        word.push(97);
        word.push(108);
        word.push(105);
        word.push(100);
        proof {
            lemma_joined_take(all, at);
        }
        write_line(&mut out, &word);
        let mut row: Vec<u64> = Vec::new();
        row.push(self.obj_value());
        proof {
            lemma_joined_take(all, at + 1);
        }
        write_row(&mut out, &row);
        let mut row: Vec<u64> = Vec::new();
        row.push(self.evaluation_time());
        proof {
            lemma_joined_take(all, at + 2);
        }
        write_row(&mut out, &row);
        proof {
            lemma_joined_take(all, at + 3);
        }
        write_line(&mut out, self.method());
        write_line(&mut out, self.comment());
        out
    }
}

} // verus!
