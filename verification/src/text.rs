//! Lines, tokens and numbers: the text that graphs and schedules are read
//! from.
//!
//! A text is a sequence of bytes. Its lines end at line feeds; a carriage
//! return before the line feed is not part of the line. The tokens of a line
//! are its longest runs of bytes that are not white space. A number is a token
//! of decimal digits whose value fits in 64 bits.
use vstd::prelude::*;
use crate::error::Error;

verus! {

/// The line feed.
pub const LINE_FEED: u8 = 10;

/// The carriage return.
pub const CARRIAGE_RETURN: u8 = 13;

/// The digit zero.
pub const ZERO: u8 = 48;

/// Whether `byte` is white space: a blank, or one of the five control
/// characters from the tab to the carriage return.
pub open spec fn is_space(byte: u8) -> bool {
    byte == 32 || (9 <= byte && byte <= 13)
}

/// Whether `byte` is a decimal digit.
pub open spec fn is_digit(byte: u8) -> bool {
    48 <= byte && byte <= 57
}

/// The sequences that the vectors of `rows` hold.
pub open spec fn seqs<T>(rows: Seq<Vec<T>>) -> Seq<Seq<T>> {
    Seq::new(rows.len(), |i: int| rows[i]@)
}

/// The index of the first line feed of `text` at or after `from`; the length
/// of `text` where there is none.
pub open spec fn line_end(text: Seq<u8>, from: int) -> int
    decreases text.len() - from,
{
    if 0 <= from < text.len() && text[from] != LINE_FEED {
        line_end(text, from + 1)
    } else {
        from
    }
}

/// `line` without the carriage return that ends it, if one does.
pub open spec fn without_return(line: Seq<u8>) -> Seq<u8> {
    if line.len() > 0 && line.last() == CARRIAGE_RETURN {
        line.drop_last()
    } else {
        line
    }
}

/// The lines of `text` that start at or after `from`, where `from` is the
/// start of a line.
pub open spec fn lines_from(text: Seq<u8>, from: int) -> Seq<Seq<u8>>
    decreases text.len() - from,
{
    if 0 <= from < text.len() {
        let end = line_end(text, from);
        let line = without_return(text.subrange(from, end));
        if from <= end < text.len() {
            seq![line] + lines_from(text, end + 1)
        } else {
            seq![line]
        }
    } else {
        Seq::empty()
    }
}

/// The lines of `text`. A text that does not end in a line feed has its last
/// bytes as its last line; the empty text has no line.
pub open spec fn lines(text: Seq<u8>) -> Seq<Seq<u8>> {
    lines_from(text, 0)
}

/// The index of the first white space of `line` at or after `from`; the
/// length of `line` where there is none.
pub open spec fn token_end(line: Seq<u8>, from: int) -> int
    decreases line.len() - from,
{
    if 0 <= from < line.len() && !is_space(line[from]) {
        token_end(line, from + 1)
    } else {
        from
    }
}

/// The tokens of `line` that start at or after `from`, where `from` is not
/// inside a token.
pub open spec fn tokens_from(line: Seq<u8>, from: int) -> Seq<Seq<u8>>
    decreases line.len() - from,
{
    if 0 <= from < line.len() {
        if is_space(line[from]) {
            tokens_from(line, from + 1)
        } else {
            let end = token_end(line, from + 1);
            if from < end <= line.len() {
                seq![line.subrange(from, end)] + tokens_from(line, end)
            } else {
                Seq::empty()
            }
        }
    } else {
        Seq::empty()
    }
}

/// The tokens of `line`: its longest runs of bytes that are not white space,
/// from left to right.
pub open spec fn tokens(line: Seq<u8>) -> Seq<Seq<u8>> {
    tokens_from(line, 0)
}

/// The number that the decimal digits `digits` write.
pub open spec fn decimal(digits: Seq<u8>) -> nat
    decreases digits.len(),
{
    if digits.len() == 0 {
        0
    } else {
        decimal(digits.drop_last()) * 10 + (digits.last() - ZERO) as nat
    }
}

/// Whether `token` consists of decimal digits, and of one at least.
pub open spec fn is_numeral(token: Seq<u8>) -> bool {
    token.len() > 0 && forall|i: int| 0 <= i < token.len() ==> is_digit(#[trigger] token[i])
}

/// The number that `token` writes, where it is a numeral whose value fits in
/// 64 bits.
pub open spec fn number(token: Seq<u8>) -> Option<u64> {
    if is_numeral(token) && decimal(token) <= u64::MAX {
        Some(decimal(token) as u64)
    } else {
        None
    }
}

/// The numbers of `line`, where each of its tokens writes one.
pub open spec fn numbers(line: Seq<u8>) -> Option<Seq<u64>> {
    let parts = tokens(line);
    if forall|i: int| 0 <= i < parts.len() ==> (#[trigger] number(parts[i])) is Some {
        Some(Seq::new(parts.len(), |i: int| number(parts[i])->Some_0))
    } else {
        None
    }
}

/// The number by which a reader knows the line at `index`: lines count from
/// one, and the count stops at the largest number that the machine holds.
pub open spec fn line_number(index: int) -> usize {
    if 0 <= index < usize::MAX {
        (index + 1) as usize
    } else {
        usize::MAX
    }
}

/// The error of a line that does not have the expected shape.
pub open spec fn malformed(index: int) -> Error {
    Error::MalformedInput { line: line_number(index) }
}

/// Whether a row of `width` numbers has the expected shape: `least` numbers
/// exactly where the shape is `fixed`, and `least` or more where it is not.
pub open spec fn fits(width: nat, least: nat, fixed: bool) -> bool {
    if fixed {
        width == least
    } else {
        width >= least
    }
}

/// The numbers of the line at `index`, where the line exists, consists of
/// numbers and has the expected shape.
pub open spec fn row_at(lines: Seq<Seq<u8>>, index: int, least: nat, fixed: bool) -> Option<
    Seq<u64>,
> {
    if 0 <= index < lines.len() {
        match numbers(lines[index]) {
            Some(row) => if fits(row.len(), least, fixed) {
                Some(row)
            } else {
                None
            },
            None => None,
        }
    } else {
        None
    }
}

/// The rows of the `count` lines from `from` on, or the error of the first
/// of them that has no row.
pub open spec fn rows_at(
    lines: Seq<Seq<u8>>,
    from: int,
    count: nat,
    least: nat,
    fixed: bool,
) -> Result<Seq<Seq<u64>>, Error>
    decreases count,
{
    if count == 0 {
        Ok(Seq::empty())
    } else {
        match rows_at(lines, from, (count - 1) as nat, least, fixed) {
            Err(error) => Err(error),
            Ok(rows) => match row_at(lines, from + count - 1, least, fixed) {
                None => Err(malformed(from + count - 1)),
                Some(row) => Ok(rows.push(row)),
            },
        }
    }
}

/// The error of the first rows is the error of all.
pub proof fn lemma_rows_at_fails(
    lines: Seq<Seq<u8>>,
    from: int,
    few: nat,
    count: nat,
    least: nat,
    fixed: bool,
)
    requires
        few <= count,
        rows_at(lines, from, few, least, fixed) is Err,
    ensures
        rows_at(lines, from, count, least, fixed) == rows_at(lines, from, few, least, fixed),
    decreases count - few,
{
    if few < count {
        lemma_rows_at_fails(lines, from, few, (count - 1) as nat, least, fixed);
    }
}

/// A line ends at or after its start, and within the text.
pub proof fn lemma_line_end_bounds(text: Seq<u8>, from: int)
    requires
        0 <= from <= text.len(),
    ensures
        from <= line_end(text, from) <= text.len(),
        line_end(text, from) < text.len() ==> text[line_end(text, from)] == LINE_FEED,
        forall|i: int| from <= i < line_end(text, from) ==> text[i] != LINE_FEED,
    decreases text.len() - from,
{
    if from < text.len() && text[from] != LINE_FEED {
        lemma_line_end_bounds(text, from + 1);
    }
}

/// A token ends at or after its start, and within the line.
pub proof fn lemma_token_end_bounds(line: Seq<u8>, from: int)
    requires
        0 <= from <= line.len(),
    ensures
        from <= token_end(line, from) <= line.len(),
        token_end(line, from) < line.len() ==> is_space(line[token_end(line, from)]),
        forall|i: int| from <= i < token_end(line, from) ==> !is_space(line[i]),
    decreases line.len() - from,
{
    if from < line.len() && !is_space(line[from]) {
        lemma_token_end_bounds(line, from + 1);
    }
}

/// The value of a numeral is at least the value of each of its beginnings.
pub proof fn lemma_decimal_grows(digits: Seq<u8>, n: int)
    requires
        0 <= n <= digits.len(),
        forall|i: int| 0 <= i < digits.len() ==> is_digit(#[trigger] digits[i]),
    ensures
        decimal(digits.take(n)) <= decimal(digits),
    decreases digits.len() - n,
{
    if n == digits.len() {
        assert(digits.take(n) =~= digits);
    } else {
        assert(digits.take(n + 1).drop_last() =~= digits.take(n));
        lemma_decimal_grows(digits, n + 1);
    }
}

/// Whether `byte` is white space.
pub fn space(byte: u8) -> (result: bool)
    ensures
        result == is_space(byte),
{
    byte == 32 || (9 <= byte && byte <= 13)
}

/// The lines of `text`.
pub fn split_lines(text: &[u8]) -> (result: Vec<Vec<u8>>)
    ensures
        seqs(result@) == lines(text@),
{
    let n: usize = text.len();
    let mut result: Vec<Vec<u8>> = Vec::new();
    let mut from: usize = 0;
    assert(seqs(result@) + lines_from(text@, 0) =~= lines(text@));
    while from < n
        invariant
            from <= n,
            n == text@.len(),
            seqs(result@) + lines_from(text@, from as int) == lines(text@),
        decreases n - from,
    {
        let mut line: Vec<u8> = Vec::new();
        let mut end: usize = from;
        while end < n && text[end] != LINE_FEED
            invariant
                from <= end <= n,
                n == text@.len(),
                line@ == text@.subrange(from as int, end as int),
                line_end(text@, from as int) == line_end(text@, end as int),
            decreases n - end,
        {
            line.push(text[end]);
            assert(line@ =~= text@.subrange(from as int, end + 1));
            end += 1;
        }
        let ghost whole = line@;
        if line.len() > 0 && line[line.len() - 1] == CARRIAGE_RETURN {
            line.pop();
            assert(line@ =~= whole.drop_last());
        }
        proof {
            let before = seqs(result@);
            assert(line_end(text@, from as int) == end);
            assert(seqs(result@.push(line)) =~= before.push(line@));
            if end < n {
                assert(before.push(line@) + lines_from(text@, end + 1) =~= before + (seq![line@]
                    + lines_from(text@, end + 1)));
            } else {
                assert(before.push(line@) + lines_from(text@, n as int) =~= before + seq![line@]);
            }
        }
        result.push(line);
        if end < n {
            from = end + 1;
        } else {
            from = n;
        }
    }
    assert(lines_from(text@, from as int) =~= Seq::<Seq<u8>>::empty());
    assert(seqs(result@) + Seq::<Seq<u8>>::empty() =~= seqs(result@));
    result
}

/// The tokens of `line`.
pub fn split_tokens(line: &Vec<u8>) -> (result: Vec<Vec<u8>>)
    ensures
        seqs(result@) == tokens(line@),
{
    let n: usize = line.len();
    let mut result: Vec<Vec<u8>> = Vec::new();
    let mut from: usize = 0;
    assert(seqs(result@) + tokens_from(line@, 0) =~= tokens(line@));
    while from < n
        invariant
            from <= n,
            n == line@.len(),
            seqs(result@) + tokens_from(line@, from as int) == tokens(line@),
        decreases n - from,
    {
        if space(line[from]) {
            from += 1;
        } else {
            let mut token: Vec<u8> = Vec::new();
            token.push(line[from]);
            let mut end: usize = from + 1;
            assert(token@ =~= line@.subrange(from as int, end as int));
            while end < n && !space(line[end])
                invariant
                    from < end <= n,
                    n == line@.len(),
                    token@ == line@.subrange(from as int, end as int),
                    token_end(line@, from + 1) == token_end(line@, end as int),
                decreases n - end,
            {
                token.push(line[end]);
                assert(token@ =~= line@.subrange(from as int, end + 1));
                end += 1;
            }
            proof {
                let before = seqs(result@);
                lemma_token_end_bounds(line@, end as int);
                assert(token_end(line@, from + 1) == end);
                assert(seqs(result@.push(token)) =~= before.push(token@));
                assert(before.push(token@) + tokens_from(line@, end as int) =~= before + (
                seq![token@] + tokens_from(line@, end as int)));
            }
            result.push(token);
            from = end;
        }
    }
    assert(tokens_from(line@, from as int) =~= Seq::<Seq<u8>>::empty());
    assert(seqs(result@) + Seq::<Seq<u8>>::empty() =~= seqs(result@));
    result
}

/// The number that `token` writes, where it writes one.
pub fn parse_number(token: &Vec<u8>) -> (result: Option<u64>)
    ensures
        result == number(token@),
{
    let n: usize = token.len();
    if n == 0 {
        return None;
    }
    let mut value: u64 = 0;
    let mut i: usize = 0;
    while i < n
        invariant
            i <= n,
            n == token@.len(),
            forall|j: int| 0 <= j < i ==> is_digit(#[trigger] token@[j]),
            value == decimal(token@.take(i as int)),
        decreases n - i,
    {
        let byte: u8 = token[i];
        if byte < 48 || byte > 57 {
            return None;
        }
        let digit: u64 = (byte - ZERO) as u64;
        assert(token@.take(i + 1).drop_last() =~= token@.take(i as int));
        if value > (u64::MAX - digit) / 10 {
            proof {
                if is_numeral(token@) {
                    lemma_decimal_grows(token@, i + 1);
                }
            }
            return None;
        }
        value = value * 10 + digit;
        i += 1;
    }
    assert(token@.take(n as int) =~= token@);
    Some(value)
}

/// The numbers of `line`, where each of its tokens writes one.
pub fn parse_numbers(line: &Vec<u8>) -> (result: Option<Vec<u64>>)
    ensures
        match result {
            Some(row) => numbers(line@) == Some(row@),
            None => numbers(line@) is None,
        },
{
    let parts: Vec<Vec<u8>> = split_tokens(line);
    let n: usize = parts.len();
    let mut row: Vec<u64> = Vec::new();
    let mut i: usize = 0;
    while i < n
        invariant
            i <= n,
            n == parts@.len(),
            seqs(parts@) == tokens(line@),
            row@.len() == i,
            forall|j: int| 0 <= j < i ==> number(#[trigger] tokens(line@)[j]) == Some(row@[j]),
        decreases n - i,
    {
        assert(seqs(parts@)[i as int] == parts@[i as int]@);
        match parse_number(&parts[i]) {
            None => {
                return None;
            },
            Some(value) => {
                row.push(value);
            },
        }
        i += 1;
    }
    Some(row)
}

/// The number by which a reader knows the line at `index`.
pub fn number_of_line(index: usize) -> (number: usize)
    ensures
        number == line_number(index as int),
{
    if index < usize::MAX {
        index + 1
    } else {
        usize::MAX
    }
}

/// The numbers of the line at `index`, where the line exists, consists of
/// numbers and has the expected shape.
pub fn read_row(lines: &Vec<Vec<u8>>, index: usize, least: usize, fixed: bool) -> (result: Result<
    Vec<u64>,
    Error,
>)
    ensures
        match result {
            Ok(row) => row_at(seqs(lines@), index as int, least as nat, fixed) == Some(row@),
            Err(error) => row_at(seqs(lines@), index as int, least as nat, fixed) is None && error
                == malformed(index as int),
        },
{
    if index >= lines.len() {
        return Err(Error::MalformedInput { line: number_of_line(index) });
    }
    match parse_numbers(&lines[index]) {
        None => Err(Error::MalformedInput { line: number_of_line(index) }),
        Some(row) => {
            if row.len() < least || (fixed && row.len() > least) {
                Err(Error::MalformedInput { line: number_of_line(index) })
            } else {
                Ok(row)
            }
        },
    }
}

/// The rows of the `count` lines from `from` on, or the error of the first
/// of them that has no row.
pub fn read_rows(
    lines: &Vec<Vec<u8>>,
    from: usize,
    count: u64,
    least: usize,
    fixed: bool,
) -> (result: Result<Vec<Vec<u64>>, Error>)
    ensures
        match result {
            Ok(rows) => rows_at(seqs(lines@), from as int, count as nat, least as nat, fixed)
                == Ok::<Seq<Seq<u64>>, Error>(seqs(rows@)) && (count > 0 ==> from + count
                <= lines@.len()),
            Err(error) => rows_at(seqs(lines@), from as int, count as nat, least as nat, fixed)
                == Err::<Seq<Seq<u64>>, Error>(error),
        },
{
    let n: usize = lines.len();
    let mut rows: Vec<Vec<u64>> = Vec::new();
    let mut done: u64 = 0;
    let mut index: usize = from;
    assert(seqs(rows@) =~= Seq::<Seq<u64>>::empty());
    while done < count
        invariant
            done <= count,
            n == lines@.len(),
            index == from + done,
            done > 0 ==> index <= lines@.len(),
            rows_at(seqs(lines@), from as int, done as nat, least as nat, fixed) == Ok::<
                Seq<Seq<u64>>,
                Error,
            >(seqs(rows@)),
        decreases count - done,
    {
        match read_row(lines, index, least, fixed) {
            Err(error) => {
                proof {
                    lemma_rows_at_fails(
                        seqs(lines@),
                        from as int,
                        (done + 1) as nat,
                        count as nat,
                        least as nat,
                        fixed,
                    );
                }
                return Err(error);
            },
            Ok(row) => {
                assert(seqs(rows@.push(row)) =~= seqs(rows@).push(row@));
                rows.push(row);
            },
        }
        done += 1;
        index += 1;
    }
    Ok(rows)
}

} // verus!
