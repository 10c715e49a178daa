//! The worksheet of sums and products: problems stand side by side, their
//! numbers above one another and the operator in the last line.

use crate::text::{
    lines, number_u64, numbers_u64, parse_numbers_u64, parse_u64, split_lines, split_tokens,
    tokens, trim, trimmed, views,
};
use vstd::prelude::*;
use vstd::string::StringSliceAdditionalSpecFns;

verus! {

/// What the operator makes of the number so far and the next one, if the operator is `*`
/// or `+` and the result fits a `u64`.
pub open spec fn applied(op: u8, so_far: int, next: int) -> Option<int> {
    if op == 42 && so_far * next <= u64::MAX {
        Some(so_far * next)
    } else if op == 43 && so_far + next <= u64::MAX {
        Some(so_far + next)
    } else {
        None
    }
}

/// The result of the problem in column `col`, worked from the top through the first `upto`
/// rows. There is none where there is no row, where a row is too short, where the operator
/// is neither `*` nor `+` and there are two rows or more, or where a result leaves the
/// range of a `u64`.
pub open spec fn column_result(rows: Seq<Seq<u64>>, op: u8, col: int, upto: int) -> Option<int>
    decreases upto,
{
    if upto <= 0 || col >= rows[upto - 1].len() {
        None
    } else if upto == 1 {
        Some(rows[0][col] as int)
    } else {
        match column_result(rows, op, col, upto - 1) {
            None => None,
            Some(so_far) => applied(op, so_far, rows[upto - 1][col] as int),
        }
    }
}

/// The sum of the results of the first `upto` problems, if each has one and the sum fits a
/// `u64`.
pub open spec fn results_sum(rows: Seq<Seq<u64>>, ops: Seq<Seq<u8>>, upto: int) -> Option<int>
    decreases upto,
{
    if upto <= 0 {
        Some(0int)
    } else {
        match (
            results_sum(rows, ops, upto - 1),
            column_result(rows, ops[upto - 1][0], upto - 1, rows.len() as int),
        ) {
            (Some(sum), Some(result)) => if sum + result <= u64::MAX {
                Some(sum + result)
            } else {
                None
            },
            _ => None,
        }
    }
}

/// The rows of numbers that the first `upto` lines write, if each token of each line
/// writes a number.
pub open spec fn number_rows(all: Seq<Seq<u8>>, upto: int) -> Option<Seq<Seq<u64>>>
    decreases upto,
{
    if upto <= 0 {
        Some(Seq::empty())
    } else {
        match (number_rows(all, upto - 1), numbers_u64(tokens(all[upto - 1]))) {
            (Some(before), Some(row)) => Some(before.push(row)),
            _ => None,
        }
    }
}

/// The sum of the results of the problems of a worksheet whose numbers are the tokens of
/// all lines but the last and whose operators are the tokens of the last line.
pub open spec fn worksheet_total(all: Seq<Seq<u8>>) -> Option<u64> {
    if all.len() == 0 {
        None
    } else {
        match number_rows(all, all.len() - 1) {
            None => None,
            Some(rows) => match results_sum(
                rows,
                tokens(all.last()),
                tokens(all.last()).len() as int,
            ) {
                Some(sum) => Some(sum as u64),
                None => None,
            },
        }
    }
}

/// Once a line writes no row of numbers, no rows come of the lines.
pub proof fn lemma_rows_fail(all: Seq<Seq<u8>>, upto: int, end: int)
    requires
        0 <= upto <= end,
        number_rows(all, upto) is None,
    ensures
        number_rows(all, end) is None,
    decreases end - upto,
{
    if upto < end {
        lemma_rows_fail(all, upto, end - 1);
    }
}

/// Once a problem has no result, the worksheet has no sum.
pub proof fn lemma_results_fail(rows: Seq<Seq<u64>>, ops: Seq<Seq<u8>>, upto: int, end: int)
    requires
        0 <= upto <= end,
        results_sum(rows, ops, upto) is None,
    ensures
        results_sum(rows, ops, end) is None,
    decreases end - upto,
{
    if upto < end {
        lemma_results_fail(rows, ops, upto, end - 1);
    }
}

/// Once a row is too short or a result out of range, the problem has no result.
pub proof fn lemma_column_fails(rows: Seq<Seq<u64>>, op: u8, col: int, upto: int, end: int)
    requires
        1 <= upto <= end,
        column_result(rows, op, col, upto) is None,
    ensures
        column_result(rows, op, col, end) is None,
    decreases end - upto,
{
    if upto < end {
        lemma_column_fails(rows, op, col, upto, end - 1);
    }
}

/// The rows as sequences.
pub open spec fn row_views(rows: Seq<Vec<u64>>) -> Seq<Seq<u64>> {
    Seq::new(rows.len(), |i: int| rows[i]@)
}

/// Works the problem in column `col`.
pub fn work_column(nums: &Vec<Vec<u64>>, op: u8, col: usize) -> (r: Option<u64>)
    ensures
        match r {
            Some(result) => column_result(row_views(nums@), op, col as int, nums@.len() as int)
                == Some(result as int),
            None => column_result(row_views(nums@), op, col as int, nums@.len() as int) is None,
        },
{
    let ghost rows = row_views(nums@);
    if nums.len() == 0 {
        return None;
    }
    assert(rows[0] == nums@[0]@);
    if col >= nums[0].len() {
        proof {
            lemma_column_fails(rows, op, col as int, 1, nums@.len() as int);
        }
        return None;
    }
    let mut acc: u64 = nums[0][col];
    let mut y: usize = 1;
    while y < nums.len()
        invariant
            1 <= y <= nums.len(),
            rows == row_views(nums@),
            column_result(rows, op, col as int, y as int) == Some(acc as int),
        decreases nums.len() - y,
    {
        assert(rows[y as int] == nums@[y as int]@);
        let next = if col >= nums[y].len() {
            None
        } else if op == 42 {
            acc.checked_mul(nums[y][col])
        } else if op == 43 {
            acc.checked_add(nums[y][col])
        } else {
            None
        };
        match next {
            Some(value) => {
                acc = value;
            },
            None => {
                proof {
                    lemma_column_fails(rows, op, col as int, y + 1, nums@.len() as int);
                }
                return None;
            },
        }
        y += 1;
    }
    Some(acc)
}

/// The sum of the results of the problems of the worksheet that the text holds: each
/// problem a column of numbers, one per line, with its operator in the last line.
///
/// `None` where the text has no line, where a token among the numbers writes none, where a
/// problem lacks a number, where an operator that is used is neither `*` nor `+`, or where
/// a result or the sum does not fit a `u64`.
pub fn solution_part1(input: &str) -> (r: Option<u64>)
    ensures
        r == worksheet_total(lines(input.spec_bytes())),
{
    let rows = split_lines(input.as_bytes());
    let ghost all = lines(input.spec_bytes());
    if rows.len() == 0 {
        return None;
    }
    let last = rows.len() - 1;
    let mut nums: Vec<Vec<u64>> = Vec::new();
    let mut y: usize = 0;
    while y < last
        invariant
            y <= last,
            last == rows.len() - 1,
            all == views(rows@),
            all == lines(input.spec_bytes()),
            number_rows(all, y as int) == Some(row_views(nums@)),
        decreases last - y,
    {
        assert(all[y as int] == rows@[y as int]@);
        let toks = split_tokens(rows[y].as_slice());
        match parse_numbers_u64(&toks) {
            Some(row) => {
                let ghost before = row_views(nums@);
                nums.push(row);
                assert(row_views(nums@) =~= before.push(row@));
            },
            None => {
                proof {
                    lemma_rows_fail(all, y + 1, last as int);
                }
                return None;
            },
        }
        y += 1;
    }
    assert(all[last as int] == rows@[last as int]@);
    let operators = split_tokens(rows[last].as_slice());
    let ghost ops = tokens(all.last());
    let mut sum: u64 = 0;
    let mut col: usize = 0;
    while col < operators.len()
        invariant
            col <= operators.len(),
            ops == views(operators@),
            ops == tokens(all.last()),
            all == lines(input.spec_bytes()),
            all.len() > 0,
            number_rows(all, all.len() - 1) == Some(row_views(nums@)),
            results_sum(row_views(nums@), ops, col as int) == Some(sum as int),
        decreases operators.len() - col,
    {
        assert(ops[col as int] == operators@[col as int]@);
        proof {
            lemma_tokens_not_empty(all.last(), col as int);
        }
        let op = operators[col][0];
        let next = match work_column(&nums, op, col) {
            Some(result) => sum.checked_add(result),
            None => None,
        };
        match next {
            Some(value) => {
                sum = value;
            },
            None => {
                proof {
                    lemma_results_fail(row_views(nums@), ops, col + 1, ops.len() as int);
                }
                return None;
            },
        }
        col += 1;
    }
    Some(sum)
}

/// No token is empty.
pub proof fn lemma_tokens_not_empty(line: Seq<u8>, i: int)
    requires
        0 <= i < tokens(line).len(),
    ensures
        tokens(line)[i].len() > 0,
{
    lemma_nonempty_parts(crate::text::fields(line, crate::text::Separator::Blank), i);
}

/// None of the parts that are kept is empty.
proof fn lemma_nonempty_parts(parts: Seq<Seq<u8>>, i: int)
    requires
        0 <= i < crate::text::nonempty(parts).len(),
    ensures
        crate::text::nonempty(parts)[i].len() > 0,
    decreases parts.len(),
{
    if parts.len() > 0 {
        if i < crate::text::nonempty(parts.drop_last()).len() {
            lemma_nonempty_parts(parts.drop_last(), i);
        }
    }
}

/// The bytes that the rows have in column `col`, from the top.
pub open spec fn column_bytes(rows: Seq<Seq<u8>>, col: int) -> Seq<u8> {
    Seq::new(rows.len(), |y: int| rows[y][col])
}

/// The product of the first `upto` numbers, if it fits a `u64` at every step.
pub open spec fn product_of(values: Seq<u64>, upto: int) -> Option<int>
    decreases upto,
{
    if upto <= 0 {
        Some(1int)
    } else {
        match product_of(values, upto - 1) {
            Some(product) => if product * values[upto - 1] <= u64::MAX {
                Some(product * values[upto - 1])
            } else {
                None
            },
            None => None,
        }
    }
}

/// The sum of the first `upto` numbers, if it fits a `u64` at every step.
pub open spec fn total_of(values: Seq<u64>, upto: int) -> Option<int>
    decreases upto,
{
    if upto <= 0 {
        Some(0int)
    } else {
        match total_of(values, upto - 1) {
            Some(total) => if total + values[upto - 1] <= u64::MAX {
                Some(total + values[upto - 1])
            } else {
                None
            },
            None => None,
        }
    }
}

/// The sum so far and the numbers kept after the column `col` is read. A column that writes
/// no number empties the numbers kept. A column that writes one adds it to them, and where
/// the last line has an operator in that column, their product or their sum is added to
/// the sum so far.
pub open spec fn after_column(
    state: (int, Seq<u64>),
    rows: Seq<Seq<u8>>,
    ops: Seq<u8>,
    col: int,
) -> Option<(int, Seq<u64>)> {
    match number_u64(trimmed(column_bytes(rows, col))) {
        None => Some((state.0, Seq::<u64>::empty())),
        Some(number) => {
            let kept = state.1.push(number);
            let worked = if ops[col] == 42 {
                product_of(kept, kept.len() as int)
            } else if ops[col] == 43 {
                total_of(kept, kept.len() as int)
            } else {
                Some(0int)
            };
            match worked {
                Some(result) => if state.0 + result <= u64::MAX {
                    Some((state.0 + result, kept))
                } else {
                    None
                },
                None => None,
            }
        },
    }
}

/// The sum so far and the numbers kept after the last `done` columns are read, from the
/// right.
pub open spec fn after_columns(rows: Seq<Seq<u8>>, ops: Seq<u8>, done: int) -> Option<
    (int, Seq<u64>),
>
    decreases done,
{
    if done <= 0 {
        Some((0int, Seq::<u64>::empty()))
    } else {
        match after_columns(rows, ops, done - 1) {
            None => None,
            Some(state) => after_column(state, rows, ops, ops.len() - done),
        }
    }
}

/// Every row is as long as the line of the operators.
pub open spec fn same_length(rows: Seq<Seq<u8>>, ops: Seq<u8>) -> bool {
    forall|y: int| 0 <= y < rows.len() ==> (#[trigger] rows[y]).len() == ops.len()
}

/// The sum of the results of the problems of a worksheet that is read by columns, from the
/// right.
pub open spec fn columns_total(all: Seq<Seq<u8>>) -> Option<u64> {
    if all.len() == 0 || !same_length(all.drop_last(), all.last()) {
        None
    } else {
        match after_columns(all.drop_last(), all.last(), all.last().len() as int) {
            Some(state) => Some(state.0 as u64),
            None => None,
        }
    }
}

/// Once a column has no result, the worksheet has no sum.
pub proof fn lemma_columns_fail(rows: Seq<Seq<u8>>, ops: Seq<u8>, done: int, end: int)
    requires
        0 <= done <= end,
        after_columns(rows, ops, done) is None,
    ensures
        after_columns(rows, ops, end) is None,
    decreases end - done,
{
    if done < end {
        lemma_columns_fail(rows, ops, done, end - 1);
    }
}

/// The product of the numbers, if it fits a `u64` at every step.
pub fn product(values: &Vec<u64>) -> (r: Option<u64>)
    ensures
        match r {
            Some(p) => product_of(values@, values@.len() as int) == Some(p as int),
            None => product_of(values@, values@.len() as int) is None,
        },
{
    let mut acc: u64 = 1;
    let mut i: usize = 0;
    while i < values.len()
        invariant
            i <= values.len(),
            product_of(values@, i as int) == Some(acc as int),
        decreases values.len() - i,
    {
        match acc.checked_mul(values[i]) {
            Some(p) => {
                acc = p;
            },
            None => {
                proof {
                    lemma_product_fails(values@, i + 1, values@.len() as int);
                }
                return None;
            },
        }
        i += 1;
    }
    Some(acc)
}

/// Once a product is out of range, so is that of more numbers.
pub proof fn lemma_product_fails(values: Seq<u64>, upto: int, end: int)
    requires
        0 <= upto <= end,
        product_of(values, upto) is None,
    ensures
        product_of(values, end) is None,
    decreases end - upto,
{
    if upto < end {
        lemma_product_fails(values, upto, end - 1);
    }
}

/// The sum of the numbers, if it fits a `u64` at every step.
pub fn total(values: &Vec<u64>) -> (r: Option<u64>)
    ensures
        match r {
            Some(t) => total_of(values@, values@.len() as int) == Some(t as int),
            None => total_of(values@, values@.len() as int) is None,
        },
{
    let mut acc: u64 = 0;
    let mut i: usize = 0;
    while i < values.len()
        invariant
            i <= values.len(),
            total_of(values@, i as int) == Some(acc as int),
        decreases values.len() - i,
    {
        match acc.checked_add(values[i]) {
            Some(t) => {
                acc = t;
            },
            None => {
                proof {
                    lemma_total_fails(values@, i + 1, values@.len() as int);
                }
                return None;
            },
        }
        i += 1;
    }
    Some(acc)
}

/// Once a sum is out of range, so is that of more numbers.
pub proof fn lemma_total_fails(values: Seq<u64>, upto: int, end: int)
    requires
        0 <= upto <= end,
        total_of(values, upto) is None,
    ensures
        total_of(values, end) is None,
    decreases end - upto,
{
    if upto < end {
        lemma_total_fails(values, upto, end - 1);
    }
}

/// The sum of the results of the problems of the worksheet that the text holds when it is
/// read by columns from the right: each column of digits is a number, written from the top,
/// and a problem ends with the column in which the last line has its operator.
///
/// `None` where the text has no line, where a line is not as long as the last, or where a
/// result or the sum does not fit a `u64`.
pub fn solution_part2(input: &str) -> (r: Option<u64>)
    ensures
        r == columns_total(lines(input.spec_bytes())),
{
    let mut data = split_lines(input.as_bytes());
    let ghost all = lines(input.spec_bytes());
    if data.len() == 0 {
        return None;
    }
    let ghost given = views(data@);
    let op_line = match data.pop() {
        Some(line) => line,
        None => {
            return None;
        },
    };
    let ghost rows = views(data@);
    assert(rows =~= all.drop_last());
    assert(op_line@ == all.last());
    let line_len = op_line.len();
    let mut y: usize = 0;
    while y < data.len()
        invariant
            y <= data.len(),
            rows == views(data@),
            rows == all.drop_last(),
            op_line@ == all.last(),
            all == lines(input.spec_bytes()),
            all.len() > 0,
            line_len == op_line@.len(),
            forall|k: int| 0 <= k < y ==> (#[trigger] rows[k]).len() == line_len,
        decreases data.len() - y,
    {
        assert(rows[y as int] == data@[y as int]@);
        if data[y].len() != line_len {
            assert(rows[y as int].len() != op_line@.len());
            return None;
        }
        y += 1;
    }
    let mut sum: u64 = 0;
    let mut num_buffer: Vec<u64> = Vec::new();
    let mut done: usize = 0;
    while done < line_len
        invariant
            done <= line_len,
            rows == views(data@),
            rows == all.drop_last(),
            op_line@ == all.last(),
            all == lines(input.spec_bytes()),
            all.len() > 0,
            line_len == op_line@.len(),
            same_length(rows, op_line@),
            after_columns(rows, op_line@, done as int) == Some((sum as int, num_buffer@)),
        decreases line_len - done,
    {
        let col = line_len - 1 - done;
        let mut column: Vec<u8> = Vec::new();
        let mut y: usize = 0;
        while y < data.len()
            invariant
                y <= data.len(),
                col < line_len,
                rows == views(data@),
                same_length(rows, op_line@),
                line_len == op_line@.len(),
                column@ == column_bytes(rows, col as int).take(y as int),
            decreases data.len() - y,
        {
            assert(rows[y as int] == data@[y as int]@);
            column.push(data[y][col]);
            assert(column@ =~= column_bytes(rows, col as int).take(y + 1));
            y += 1;
        }
        assert(column@ == column_bytes(rows, col as int)) by {
            assert(column_bytes(rows, col as int).take(y as int) == column_bytes(rows, col as int));
        }
        let inner = trim(column.as_slice());
        match parse_u64(inner.as_slice()) {
            None => {
                num_buffer = Vec::new();
            },
            Some(number) => {
                num_buffer.push(number);
                let worked = if op_line[col] == 42 {
                    product(&num_buffer)
                } else if op_line[col] == 43 {
                    total(&num_buffer)
                } else {
                    Some(0)
                };
                let next = match worked {
                    Some(result) => sum.checked_add(result),
                    None => None,
                };
                match next {
                    Some(value) => {
                        sum = value;
                    },
                    None => {
                        proof {
                            lemma_columns_fail(rows, op_line@, done + 1, line_len as int);
                        }
                        return None;
                    },
                }
            },
        }
        done += 1;
    }
    Some(sum)
}

} // verus!
