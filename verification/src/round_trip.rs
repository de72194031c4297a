//! The laws that tie what is written to what is read.
//!
//! A number, a row and a schedule that are written and read again are what
//! they were. A text that is read and written again has, line by line, the
//! tokens that it had, if its numerals have no zeros in front and its claim is
//! one of the two words that this library writes.
use vstd::prelude::*;
use crate::error::Error;
use crate::graph::NodeModel;
use crate::reader::{parsed_solution, population_at, task_of_row, tasks_at, valid_word};
use crate::solution::SolutionModel;
use crate::task::TaskModel;
use crate::text::{
    decimal, is_digit, is_numeral, is_space, lemma_line_end_bounds, lemma_token_end_bounds,
    line_end, lines, lines_from, number, numbers, row_at, token_end, tokens, tokens_from,
    without_return, CARRIAGE_RETURN, LINE_FEED, ZERO,
};
use crate::writer::{
    digits_of, invalid_word, joined, numerals_of, spaced, task_row, written, written_lines,
    written_row, BLANK,
};

verus! {

/// Whether `token` is a numeral as `digits_of` writes it: one digit, or
/// digits of which the first is not a zero.
pub open spec fn is_plain(token: Seq<u8>) -> bool {
    is_numeral(token) && (token.len() == 1 || token[0] != ZERO)
}

/// Whether every token of `line` is a plain numeral.
pub open spec fn is_plain_row(line: Seq<u8>) -> bool {
    forall|i: int| 0 <= i < tokens(line).len() ==> is_plain(#[trigger] tokens(line)[i])
}

/// Whether `word` can stand as a token: it is not empty and holds no white
/// space.
pub open spec fn is_word(word: Seq<u8>) -> bool {
    word.len() > 0 && forall|i: int| 0 <= i < word.len() ==> !is_space(#[trigger] word[i])
}

/// Whether `line` can be written as one line and read as it was: it holds
/// no line feed and does not end in a carriage return.
pub open spec fn is_line(line: Seq<u8>) -> bool {
    &&& forall|i: int| 0 <= i < line.len() ==> #[trigger] line[i] != LINE_FEED
    &&& line.len() > 0 ==> line.last() != CARRIAGE_RETURN
}

/// Whether `line` holds no line feed.
pub open spec fn has_no_feed(line: Seq<u8>) -> bool {
    forall|i: int| 0 <= i < line.len() ==> #[trigger] line[i] != LINE_FEED
}

/// `lines`, each without the carriage return that ends it, if one does.
pub open spec fn without_returns(lines: Seq<Seq<u8>>) -> Seq<Seq<u8>> {
    Seq::new(lines.len(), |i: int| without_return(lines[i]))
}

/// Whether the lines of a schedule are written as this library writes them,
/// white space apart: every numeral is plain, and the line of the claim
/// holds the one word `valid` or the one word `invalid`.
pub open spec fn is_tidy(lines: Seq<Seq<u8>>) -> bool {
    let count = numbers(lines[1])->Some_0[0];
    let at = 2 + count;
    &&& forall|i: int| 1 <= i < at ==> is_plain_row(#[trigger] lines[i])
    &&& tokens(lines[at]) == seq![valid_word()] || tokens(lines[at]) == seq![invalid_word()]
    &&& is_plain_row(lines[at + 1])
    &&& is_plain_row(lines[at + 2])
}

/// Whether the text that writes `solution` is read as `solution` for a graph
/// with these `nodes`: its names and its comment are lines, it announces as
/// many tasks as it has, and each task has the population of its node in the
/// graph, is well formed, and has no flag.
pub open spec fn is_readable(solution: SolutionModel, nodes: Map<u64, NodeModel>) -> bool {
    &&& is_line(solution.graph_name)
    &&& is_line(solution.method)
    &&& is_line(solution.comment)
    &&& solution.nb_of_evac_nodes == solution.tasks.len()
    &&& forall|i: int|
        0 <= i < solution.tasks.len() ==> {
            let task = #[trigger] solution.tasks[i];
            &&& task.wf()
            &&& !task.flag
            &&& population_at(nodes, task.node) == Some(task.people as u64)
        }
}

/// What is written of a number is a plain numeral that writes the number.
pub proof fn lemma_digits_of(n: nat)
    ensures
        is_plain(digits_of(n)),
        decimal(digits_of(n)) == n,
    decreases n,
{
    if n < 10 {
        assert(decimal(digits_of(n).drop_last()) == 0);
    } else {
        lemma_digits_of(n / 10);
        let front = digits_of(n / 10);
        assert(digits_of(n).drop_last() =~= front);
        if front.len() == 1 {
            assert(decimal(front.drop_last()) == 0);
        }
    }
}

/// A number that is written and read again is the same number.
pub proof fn lemma_number_of_digits(n: u64)
    ensures
        number(digits_of(n as nat)) == Some(n),
{
    lemma_digits_of(n as nat);
}

/// A numeral whose first digit is not a zero writes a number that is not
/// zero.
proof fn lemma_decimal_positive(token: Seq<u8>)
    requires
        is_numeral(token),
        token[0] != ZERO,
    ensures
        decimal(token) > 0,
    decreases token.len(),
{
    if token.len() > 1 {
        lemma_decimal_positive(token.drop_last());
    }
}

/// A plain numeral that is read and written again is the same numeral.
pub proof fn lemma_digits_of_decimal(token: Seq<u8>)
    requires
        is_plain(token),
    ensures
        digits_of(decimal(token)) == token,
    decreases token.len(),
{
    let front = token.drop_last();
    let last = token.last();
    if token.len() == 1 {
        assert(front =~= Seq::<u8>::empty());
        assert(digits_of(decimal(token)) =~= token);
    } else {
        assert(front[0] == token[0]);
        lemma_decimal_positive(front);
        lemma_digits_of_decimal(front);
        let value = decimal(token);
        assert(value / 10 == decimal(front) && value % 10 == last - ZERO);
        assert(digits_of(value) =~= token);
    }
}

/// Inside a line, a token ends where it ends in the line alone, whatever
/// follows the line after a blank.
proof fn lemma_token_end_before_blank(line: Seq<u8>, word: Seq<u8>, from: int)
    requires
        0 <= from <= line.len(),
    ensures
        token_end(line + seq![BLANK] + word, from) == token_end(line, from),
    decreases line.len() - from,
{
    if from < line.len() && !is_space(line[from]) {
        lemma_token_end_before_blank(line, word, from + 1);
    }
}

/// A word runs to its end.
proof fn lemma_token_end_of_word(line: Seq<u8>, from: int, end: int)
    requires
        0 <= from <= end <= line.len(),
        forall|i: int| from <= i < end ==> !is_space(#[trigger] line[i]),
        end < line.len() ==> is_space(line[end]),
    ensures
        token_end(line, from) == end,
    decreases end - from,
{
    if from < end {
        lemma_token_end_of_word(line, from + 1, end);
    }
}

/// A word behind a line and a blank is one token more.
proof fn lemma_tokens_from_with_word(line: Seq<u8>, word: Seq<u8>, from: int)
    requires
        0 <= from <= line.len(),
        is_word(word),
    ensures
        tokens_from(line + seq![BLANK] + word, from) == tokens_from(line, from).push(word),
    decreases line.len() - from,
{
    let longer = line + seq![BLANK] + word;
    if from < line.len() {
        if is_space(line[from]) {
            lemma_tokens_from_with_word(line, word, from + 1);
        } else {
            let end = token_end(line, from + 1);
            lemma_token_end_bounds(line, from + 1);
            lemma_token_end_before_blank(line, word, from + 1);
            lemma_tokens_from_with_word(line, word, end);
            assert(longer.subrange(from, end) =~= line.subrange(from, end));
        }
    } else {
        let start: int = (line.len() + 1) as int;
        lemma_token_end_of_word(longer, start + 1, longer.len() as int);
        assert(longer.subrange(start, longer.len() as int) =~= word);
        assert(tokens_from(longer, longer.len() as int) =~= Seq::<Seq<u8>>::empty());
        assert(tokens_from(longer, start) =~= seq![word]);
    }
}

/// A word alone is its one token.
proof fn lemma_tokens_of_word(word: Seq<u8>)
    requires
        is_word(word),
    ensures
        tokens(word) == seq![word],
{
    lemma_token_end_of_word(word, 1, word.len() as int);
    assert(word.subrange(0, word.len() as int) =~= word);
    assert(tokens_from(word, word.len() as int) =~= Seq::<Seq<u8>>::empty());
}

/// The tokens of words written with blanks between them are the words.
pub proof fn lemma_tokens_of_spaced(words: Seq<Seq<u8>>)
    requires
        forall|i: int| 0 <= i < words.len() ==> is_word(#[trigger] words[i]),
    ensures
        tokens(spaced(words)) == words,
    decreases words.len(),
{
    if words.len() == 1 {
        lemma_tokens_of_word(words[0]);
    } else if words.len() > 1 {
        let front = words.drop_last();
        lemma_tokens_of_spaced(front);
        lemma_tokens_from_with_word(spaced(front), words.last(), 0);
    }
}

/// The tokens of a written row are the numerals of its numbers.
pub proof fn lemma_tokens_of_written_row(row: Seq<u64>)
    ensures
        tokens(written_row(row)) == numerals_of(row),
{
    let words = numerals_of(row);
    assert forall|i: int| 0 <= i < words.len() implies is_word(#[trigger] words[i]) by {
        lemma_digits_of(row[i] as nat);
    }
    lemma_tokens_of_spaced(words);
}

/// A row that is written and read again is the same row.
pub proof fn lemma_numbers_of_written_row(row: Seq<u64>)
    ensures
        numbers(written_row(row)) == Some(row),
{
    lemma_tokens_of_written_row(row);
    let words = numerals_of(row);
    assert forall|i: int| 0 <= i < words.len() implies #[trigger] number(words[i]) == Some(
        row[i],
    ) by {
        lemma_number_of_digits(row[i]);
    }
}

/// A line of plain numerals that is read and written again has the tokens
/// that it had.
pub proof fn lemma_written_row_of_numbers(line: Seq<u8>)
    requires
        numbers(line) is Some,
        is_plain_row(line),
    ensures
        tokens(written_row(numbers(line)->Some_0)) == tokens(line),
{
    let parts = tokens(line);
    let row = numbers(line)->Some_0;
    lemma_tokens_of_written_row(row);
    assert forall|i: int| 0 <= i < parts.len() implies numerals_of(row)[i] == parts[i] by {
        lemma_digits_of_decimal(parts[i]);
    }
}

/// The two words of the claim are words, and each is its one token.
pub proof fn lemma_tokens_of_words()
    ensures
        tokens(valid_word()) == seq![valid_word()],
        tokens(invalid_word()) == seq![invalid_word()],
        valid_word() != invalid_word(),
{
    lemma_tokens_of_word(valid_word());
    lemma_tokens_of_word(invalid_word());
}

/// White space behind a line adds no token.
proof fn lemma_tokens_from_with_space(line: Seq<u8>, space: u8, from: int)
    requires
        0 <= from <= line.len(),
        is_space(space),
    ensures
        tokens_from(line.push(space), from) == tokens_from(line, from),
        token_end(line.push(space), from) == token_end(line, from),
    decreases line.len() - from,
{
    let longer = line.push(space);
    if from < line.len() {
        if is_space(line[from]) {
            lemma_tokens_from_with_space(line, space, from + 1);
        } else {
            let end = token_end(line, from + 1);
            lemma_token_end_bounds(line, from + 1);
            lemma_tokens_from_with_space(line, space, from + 1);
            lemma_tokens_from_with_space(line, space, end);
            assert(longer.subrange(from, end) =~= line.subrange(from, end));
        }
    } else {
        assert(tokens_from(longer, from + 1) =~= Seq::<Seq<u8>>::empty());
    }
}

/// A carriage return at the end of a line adds no token.
pub proof fn lemma_tokens_without_return(line: Seq<u8>)
    ensures
        tokens(without_return(line)) == tokens(line),
{
    if line.len() > 0 && line.last() == CARRIAGE_RETURN {
        lemma_tokens_from_with_space(line.drop_last(), CARRIAGE_RETURN, 0);
        assert(line.drop_last().push(CARRIAGE_RETURN) =~= line);
    }
}

/// Joined lines start with the first line and its line feed.
proof fn lemma_joined_front(lines: Seq<Seq<u8>>)
    requires
        lines.len() > 0,
    ensures
        joined(lines) == lines[0] + seq![LINE_FEED] + joined(lines.drop_first()),
    decreases lines.len(),
{
    if lines.len() == 1 {
        assert(lines.drop_last() =~= Seq::<Seq<u8>>::empty());
        assert(lines.drop_first() =~= Seq::<Seq<u8>>::empty());
    } else {
        let front = lines.drop_last();
        lemma_joined_front(front);
        assert(front.drop_first() =~= lines.drop_first().drop_last());
    }
}

/// A line ends at the first line feed.
proof fn lemma_line_end_at(text: Seq<u8>, from: int, end: int)
    requires
        0 <= from <= end <= text.len(),
        forall|i: int| from <= i < end ==> #[trigger] text[i] != LINE_FEED,
        end < text.len() ==> text[end] == LINE_FEED,
    ensures
        line_end(text, from) == end,
    decreases end - from,
{
    if from < end {
        lemma_line_end_at(text, from + 1, end);
    }
}

/// Behind a text that ends a line, joined lines are read as they were, less
/// a carriage return at the end of each.
proof fn lemma_lines_from_joined(front: Seq<u8>, lines: Seq<Seq<u8>>)
    requires
        forall|i: int| 0 <= i < lines.len() ==> has_no_feed(#[trigger] lines[i]),
    ensures
        lines_from(front + joined(lines), front.len() as int) == without_returns(lines),
    decreases lines.len(),
{
    let text = front + joined(lines);
    let from = front.len() as int;
    if lines.len() > 0 {
        let first = lines[0];
        let rest = lines.drop_first();
        lemma_joined_front(lines);
        let end = from + first.len();
        lemma_line_end_at(text, from, end);
        assert(text.subrange(from, end) =~= first);
        let longer = front + first + seq![LINE_FEED];
        lemma_lines_from_joined(longer, rest);
        assert(longer + joined(rest) =~= text);
    }
}

/// Lines that are joined and read again are the same lines, less a carriage
/// return at the end of each.
pub proof fn lemma_lines_of_joined(lines: Seq<Seq<u8>>)
    requires
        forall|i: int| 0 <= i < lines.len() ==> has_no_feed(#[trigger] lines[i]),
    ensures
        crate::text::lines(joined(lines)) == without_returns(lines),
{
    lemma_lines_from_joined(Seq::empty(), lines);
}

/// The lines of a text hold no line feed.
pub proof fn lemma_lines_have_no_feed(text: Seq<u8>, from: int, i: int)
    requires
        0 <= from <= text.len(),
        0 <= i < lines_from(text, from).len(),
    ensures
        has_no_feed(lines_from(text, from)[i]),
    decreases text.len() - from,
{
    if from < text.len() {
        lemma_line_end_bounds(text, from);
        if i > 0 {
            lemma_lines_have_no_feed(text, line_end(text, from) + 1, i - 1);
        }
    }
}

/// Words of digits with blanks between them hold digits and blanks only.
proof fn lemma_spaced_bytes(words: Seq<Seq<u8>>, i: int)
    requires
        forall|k: int| 0 <= k < words.len() ==> is_numeral(#[trigger] words[k]),
        0 <= i < spaced(words).len(),
    ensures
        is_digit(spaced(words)[i]) || spaced(words)[i] == BLANK,
    decreases words.len(),
{
    if words.len() > 1 {
        let front = words.drop_last();
        if i < spaced(front).len() {
            lemma_spaced_bytes(front, i);
        }
    }
}

/// A written row is a line.
pub proof fn lemma_written_row_is_line(row: Seq<u64>)
    ensures
        is_line(written_row(row)),
{
    let words = numerals_of(row);
    let line = written_row(row);
    assert forall|k: int| 0 <= k < words.len() implies is_numeral(#[trigger] words[k]) by {
        lemma_digits_of(row[k] as nat);
    }
    assert forall|i: int| 0 <= i < line.len() implies #[trigger] line[i] != LINE_FEED by {
        lemma_spaced_bytes(words, i);
    }
}

/// The tasks that were read are as many as was announced.
pub proof fn lemma_tasks_at_len(
    lines: Seq<Seq<u8>>,
    nodes: Map<u64, NodeModel>,
    from: int,
    count: nat,
)
    requires
        tasks_at(lines, nodes, from, count) is Ok,
    ensures
        tasks_at(lines, nodes, from, count)->Ok_0.len() == count,
    decreases count,
{
    if count > 0 {
        lemma_tasks_at_len(lines, nodes, from, (count - 1) as nat);
    }
}

/// Each task that was read is the task of its line.
pub proof fn lemma_tasks_at_row(
    lines: Seq<Seq<u8>>,
    nodes: Map<u64, NodeModel>,
    from: int,
    count: nat,
    i: int,
)
    requires
        tasks_at(lines, nodes, from, count) is Ok,
        0 <= i < count,
    ensures
        row_at(lines, from + i, 3, true) is Some,
        task_of_row(nodes, row_at(lines, from + i, 3, true)->Some_0) == Ok::<TaskModel, Error>(
            tasks_at(lines, nodes, from, count)->Ok_0[i],
        ),
    decreases count,
{
    lemma_tasks_at_len(lines, nodes, from, (count - 1) as nat);
    if i < count - 1 {
        lemma_tasks_at_row(lines, nodes, from, (count - 1) as nat, i);
    }
}

/// The written tasks are read as they were.
proof fn lemma_tasks_at_written(solution: SolutionModel, nodes: Map<u64, NodeModel>, count: nat)
    requires
        is_readable(solution, nodes),
        count <= solution.tasks.len(),
    ensures
        tasks_at(written_lines(solution), nodes, 2, count) == Ok::<Seq<TaskModel>, Error>(
            solution.tasks.take(count as int),
        ),
    decreases count,
{
    if count == 0 {
        assert(solution.tasks.take(0) =~= Seq::<TaskModel>::empty());
    } else {
        lemma_tasks_at_written(solution, nodes, (count - 1) as nat);
        let task = solution.tasks[count - 1];
        lemma_numbers_of_written_row(task_row(task));
        assert(solution.tasks.take(count - 1).push(task) =~= solution.tasks.take(count as int));
    }
}

/// A schedule that is read from a tidy text and written again has, line by
/// line, the tokens that the text had.
pub proof fn lemma_written_keeps_tokens(text: Seq<u8>, nodes: Map<u64, NodeModel>, i: int)
    requires
        parsed_solution(text, nodes) is Ok,
        is_tidy(lines(text)),
        0 <= i < written_lines(parsed_solution(text, nodes)->Ok_0).len(),
    ensures
        i < lines(text).len(),
        tokens(written_lines(parsed_solution(text, nodes)->Ok_0)[i]) == tokens(lines(text)[i]),
{
    let all = lines(text);
    let solution = parsed_solution(text, nodes)->Ok_0;
    let count = row_at(all, 1, 1, true)->Some_0[0];
    let at = 2 + count;
    lemma_tasks_at_len(all, nodes, 2, count as nat);
    if 2 <= i < at {
        lemma_tasks_at_row(all, nodes, 2, count as nat, i - 2);
        assert(task_row(solution.tasks[i - 2]) =~= row_at(all, i, 3, true)->Some_0);
        lemma_written_row_of_numbers(all[i]);
    } else if i == at {
        lemma_tokens_of_words();
    } else if i == 1 || i == at + 1 || i == at + 2 {
        lemma_written_row_of_numbers(all[i]);
    }
}

/// A schedule that is read from a tidy text, written as a text and read
/// again has, line by line, the tokens that the first text had.
pub proof fn lemma_rewritten_keeps_tokens(text: Seq<u8>, nodes: Map<u64, NodeModel>, i: int)
    requires
        parsed_solution(text, nodes) is Ok,
        is_tidy(lines(text)),
        0 <= i < written_lines(parsed_solution(text, nodes)->Ok_0).len(),
    ensures
        i < lines(text).len(),
        i < lines(written(parsed_solution(text, nodes)->Ok_0)).len(),
        tokens(lines(written(parsed_solution(text, nodes)->Ok_0))[i]) == tokens(lines(text)[i]),
{
    let all = lines(text);
    let solution = parsed_solution(text, nodes)->Ok_0;
    let out = written_lines(solution);
    let count = row_at(all, 1, 1, true)->Some_0[0];
    let at = 2 + count;
    lemma_tasks_at_len(all, nodes, 2, count as nat);
    assert forall|k: int| 0 <= k < out.len() implies has_no_feed(#[trigger] out[k]) by {
        if k == 0 {
            lemma_lines_have_no_feed(text, 0, 0);
        } else if k == 1 {
            lemma_written_row_is_line(seq![solution.nb_of_evac_nodes]);
        } else if k < at {
            lemma_written_row_is_line(task_row(solution.tasks[k - 2]));
        } else if k == at + 1 {
            lemma_written_row_is_line(seq![solution.obj_value]);
        } else if k == at + 2 {
            lemma_written_row_is_line(seq![solution.evaluation_time]);
        } else if k > at + 2 {
            lemma_lines_have_no_feed(text, 0, k);
        }
    }
    lemma_lines_of_joined(out);
    lemma_tokens_without_return(out[i]);
    lemma_written_keeps_tokens(text, nodes, i);
}

/// A schedule that is written and read again is the same schedule.
pub proof fn lemma_read_written(solution: SolutionModel, nodes: Map<u64, NodeModel>)
    requires
        is_readable(solution, nodes),
    ensures
        parsed_solution(written(solution), nodes) == Ok::<SolutionModel, Error>(solution),
{
    let all = written_lines(solution);
    let count = solution.tasks.len();
    let at: int = (2 + count) as int;
    lemma_tokens_of_words();
    assert forall|i: int| 0 <= i < all.len() implies is_line(#[trigger] all[i]) by {
        if i == 1 {
            lemma_written_row_is_line(seq![solution.nb_of_evac_nodes]);
        } else if 2 <= i < at {
            lemma_written_row_is_line(task_row(solution.tasks[i - 2]));
        } else if i == at + 1 {
            lemma_written_row_is_line(seq![solution.obj_value]);
        } else if i == at + 2 {
            lemma_written_row_is_line(seq![solution.evaluation_time]);
        }
    }
    lemma_lines_of_joined(all);
    assert(without_returns(all) =~= all);
    lemma_numbers_of_written_row(seq![solution.nb_of_evac_nodes]);
    lemma_numbers_of_written_row(seq![solution.obj_value]);
    lemma_numbers_of_written_row(seq![solution.evaluation_time]);
    lemma_tasks_at_written(solution, nodes, count);
    assert(solution.tasks.take(count as int) =~= solution.tasks);
    assert(seq![invalid_word()][0] == invalid_word());
}

} // verus!
