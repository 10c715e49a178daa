//! Rolls of paper on a grid: a roll can be taken away when fewer than four of
//! the eight cells around it hold a roll.

use crate::text::{lines, split_lines, views};
use vstd::prelude::*;
use vstd::string::StringSliceAdditionalSpecFns;

verus! {

/// The value of the cell in row `y` and column `x`, and zero outside the grid.
pub open spec fn cell(grid: Seq<Seq<u16>>, y: int, x: int) -> int {
    if 0 <= y < grid.len() && 0 <= x < grid[y].len() {
        grid[y][x] as int
    } else {
        0
    }
}

/// The sum of the cell and of its neighbours to the left and to the right.
pub open spec fn row_sum(grid: Seq<Seq<u16>>, y: int, x: int) -> int {
    cell(grid, y, x - 1) + cell(grid, y, x) + cell(grid, y, x + 1)
}

/// The sum over the box of three by three cells around row `y` and column `x`.
pub open spec fn box_sum(grid: Seq<Seq<u16>>, y: int, x: int) -> int {
    row_sum(grid, y - 1, x) + row_sum(grid, y, x) + row_sum(grid, y + 1, x)
}

/// The rows of a vector of vectors.
pub open spec fn rows(grid: Seq<Vec<u16>>) -> Seq<Seq<u16>> {
    Seq::new(grid.len(), |y: int| grid[y]@)
}

/// The grid has a row at least, all rows are as wide as the first, and the sum over the
/// box around each cell fits a `u16`.
pub open spec fn is_grid(grid: Seq<Seq<u16>>) -> bool {
    &&& grid.len() > 0
    &&& forall|y: int| 0 <= y < grid.len() ==> (#[trigger] grid[y]).len() == grid[0].len()
    &&& forall|y: int, x: int|
        0 <= y < grid.len() && 0 <= x < grid[y].len() ==> #[trigger] box_sum(grid, y, x)
            <= u16::MAX
}

/// The cell holds a roll with fewer than four rolls around it.
pub open spec fn is_free(grid: Seq<Seq<u16>>, y: int, x: int) -> bool {
    cell(grid, y, x) == 1 && box_sum(grid, y, x) - 1 < 4
}

/// The number of free rolls among the first `upto` cells of row `y`.
pub open spec fn free_in_row(grid: Seq<Seq<u16>>, y: int, upto: int) -> nat
    decreases upto,
{
    if upto <= 0 {
        0
    } else {
        free_in_row(grid, y, upto - 1) + if is_free(grid, y, upto - 1) {
            1nat
        } else {
            0nat
        }
    }
}

/// The number of free rolls in the first `upto` rows.
pub open spec fn free_rolls(grid: Seq<Seq<u16>>, upto: int) -> nat
    decreases upto,
{
    if upto <= 0 {
        0
    } else {
        free_rolls(grid, upto - 1) + free_in_row(grid, upto - 1, grid[upto - 1].len() as int)
    }
}

/// The grid after every free roll is taken away at once.
pub open spec fn without_free(grid: Seq<Seq<u16>>) -> Seq<Seq<u16>> {
    Seq::new(
        grid.len(),
        |y: int|
            Seq::new(
                grid[y].len(),
                |x: int|
                    if is_free(grid, y, x) {
                        0u16
                    } else {
                        grid[y][x]
                    },
            ),
    )
}

/// The number of rolls taken away in at most `rounds` rounds, each of which takes every roll
/// that is free then, until a round finds none.
pub open spec fn taken_in_rounds(grid: Seq<Seq<u16>>, rounds: nat) -> nat
    decreases rounds,
{
    if rounds == 0 || free_rolls(grid, grid.len() as int) == 0 {
        0
    } else {
        free_rolls(grid, grid.len() as int) + taken_in_rounds(
            without_free(grid),
            (rounds - 1) as nat,
        )
    }
}

/// A row holds no more free rolls than cells.
pub proof fn lemma_free_in_row_bound(grid: Seq<Seq<u16>>, y: int, upto: int)
    requires
        0 <= upto,
    ensures
        free_in_row(grid, y, upto) <= upto,
    decreases upto,
{
    if upto > 0 {
        lemma_free_in_row_bound(grid, y, upto - 1);
    }
}

/// A grid whose rows are `width` wide holds no more free rolls than cells.
pub proof fn lemma_free_rolls_bound(grid: Seq<Seq<u16>>, upto: int, width: int)
    requires
        0 <= upto <= grid.len(),
        forall|y: int| 0 <= y < grid.len() ==> (#[trigger] grid[y]).len() == width,
    ensures
        free_rolls(grid, upto) <= upto * width,
    decreases upto,
{
    if upto > 0 {
        assert(grid[upto - 1].len() == width);
        lemma_free_rolls_bound(grid, upto - 1, width);
        lemma_free_in_row_bound(grid, upto - 1, width);
        assert((upto - 1) * width + width == upto * width) by (nonlinear_arith);
    } else {
        assert(upto * width == 0) by (nonlinear_arith)
            requires
                upto == 0,
        ;
    }
}

/// Taking the free rolls away leaves a grid.
pub proof fn lemma_without_free_is_grid(grid: Seq<Seq<u16>>)
    requires
        is_grid(grid),
    ensures
        is_grid(without_free(grid)),
        without_free(grid).len() == grid.len(),
        without_free(grid)[0].len() == grid[0].len(),
{
    let after = without_free(grid);
    assert forall|y: int| 0 <= y < after.len() implies (#[trigger] after[y]).len()
        == after[0].len() by {
        assert(grid[y].len() == grid[0].len());
    }
    assert forall|y: int, x: int|
        0 <= y < after.len() && 0 <= x < after[y].len() implies #[trigger] box_sum(after, y, x)
        <= u16::MAX by {
        lemma_without_free_is_less(grid, y - 1, x);
        lemma_without_free_is_less(grid, y, x);
        lemma_without_free_is_less(grid, y + 1, x);
        assert(box_sum(grid, y, x) <= u16::MAX);
    }
}

/// Taking the free rolls away makes no sum of three cells greater.
pub proof fn lemma_without_free_is_less(grid: Seq<Seq<u16>>, y: int, x: int)
    ensures
        row_sum(without_free(grid), y, x) <= row_sum(grid, y, x),
{
    let after = without_free(grid);
    assert(cell(after, y, x - 1) <= cell(grid, y, x - 1));
    assert(cell(after, y, x) <= cell(grid, y, x));
    assert(cell(after, y, x + 1) <= cell(grid, y, x + 1));
}

/// Adds up each cell with its neighbours in the same row.
fn row_sums(input: &Vec<Vec<u16>>) -> (tmp: Vec<Vec<u16>>)
    requires
        is_grid(rows(input@)),
    ensures
        tmp@.len() == input@.len(),
        forall|y: int| 0 <= y < tmp@.len() ==> (#[trigger] tmp@[y])@.len() == input@[0]@.len(),
        forall|y: int, x: int|
            0 <= y < tmp@.len() && 0 <= x < input@[0]@.len() ==> (#[trigger] tmp@[y]@[x]) as int
                == row_sum(rows(input@), y, x),
{
    let height = input.len();
    assert(rows(input@)[0] == input@[0]@);
    let width = input[0].len();
    let ghost grid = rows(input@);
    let mut tmp: Vec<Vec<u16>> = Vec::new();
    let mut y: usize = 0;
    while y < height
        invariant
            y <= height,
            height == input@.len(),
            width == input@[0]@.len(),
            grid == rows(input@),
            is_grid(grid),
            tmp@.len() == y,
            forall|k: int| 0 <= k < y ==> (#[trigger] tmp@[k])@.len() == width,
            forall|k: int, x: int|
                0 <= k < y && 0 <= x < width ==> (#[trigger] tmp@[k]@[x]) as int == row_sum(
                    grid,
                    k,
                    x,
                ),
        decreases height - y,
    {
        let mut row: Vec<u16> = Vec::new();
        let line = &input[y];
        assert(grid[y as int] == line@);
        assert(line@.len() == width);
        let mut x: usize = 0;
        while x < width
            invariant
                x <= width,
                y < height,
                height == input@.len(),
                width == line@.len(),
                grid == rows(input@),
                grid[y as int] == line@,
                is_grid(grid),
                row@.len() == x,
                forall|k: int| 0 <= k < x ==> (#[trigger] row@[k]) as int == row_sum(grid, y as int, k),
            decreases width - x,
        {
            proof {
                assert(box_sum(grid, y as int, x as int) <= u16::MAX);
                lemma_row_sum_not_negative(grid, y as int - 1, x as int);
                lemma_row_sum_not_negative(grid, y as int + 1, x as int);
            }
            let mut sum = line[x];
            if x > 0 {
                sum += line[x - 1];
            }
            if x + 1 < width {
                sum += line[x + 1];
            }
            row.push(sum);
            x += 1;
        }
        tmp.push(row);
        y += 1;
    }
    tmp
}

/// For each cell, the sum over the box of three by three cells around it. Cells beyond
/// the edge of the grid count as zero.
pub fn box_accum_3x3(input: &Vec<Vec<u16>>) -> (out: Vec<Vec<u16>>)
    requires
        is_grid(rows(input@)),
    ensures
        out@.len() == input@.len(),
        forall|y: int| 0 <= y < out@.len() ==> (#[trigger] out@[y])@.len() == input@[0]@.len(),
        forall|y: int, x: int|
            0 <= y < out@.len() && 0 <= x < input@[0]@.len() ==> (#[trigger] out@[y]@[x]) as int
                == box_sum(rows(input@), y, x),
{
    let height = input.len();
    assert(rows(input@)[0] == input@[0]@);
    let width = input[0].len();
    let ghost grid = rows(input@);
    let tmp = row_sums(input);
    let mut out: Vec<Vec<u16>> = Vec::new();
    let mut y: usize = 0;
    while y < height
        invariant
            y <= height,
            height == input@.len(),
            width == input@[0]@.len(),
            grid == rows(input@),
            is_grid(grid),
            tmp@.len() == height,
            forall|k: int| 0 <= k < height ==> (#[trigger] tmp@[k])@.len() == width,
            forall|k: int, x: int|
                0 <= k < height && 0 <= x < width ==> (#[trigger] tmp@[k]@[x]) as int == row_sum(
                    grid,
                    k,
                    x,
                ),
            out@.len() == y,
            forall|k: int| 0 <= k < y ==> (#[trigger] out@[k])@.len() == width,
            forall|k: int, x: int|
                0 <= k < y && 0 <= x < width ==> (#[trigger] out@[k]@[x]) as int == box_sum(
                    grid,
                    k,
                    x,
                ),
        decreases height - y,
    {
        let mut row: Vec<u16> = Vec::new();
        let mut x: usize = 0;
        while x < width
            invariant
                x <= width,
                y < height,
                height == input@.len(),
                width == input@[0]@.len(),
                grid == rows(input@),
                is_grid(grid),
                tmp@.len() == height,
                forall|k: int| 0 <= k < height ==> (#[trigger] tmp@[k])@.len() == width,
                forall|k: int, c: int|
                    0 <= k < height && 0 <= c < width ==> (#[trigger] tmp@[k]@[c]) as int
                        == row_sum(grid, k, c),
                row@.len() == x,
                forall|k: int| 0 <= k < x ==> (#[trigger] row@[k]) as int == box_sum(grid, y as int, k),
            decreases width - x,
        {
            proof {
                assert(grid[y as int].len() == width);
                assert(box_sum(grid, y as int, x as int) <= u16::MAX);
                lemma_row_sum_not_negative(grid, y as int - 1, x as int);
                lemma_row_sum_not_negative(grid, y as int, x as int);
                lemma_row_sum_not_negative(grid, y as int + 1, x as int);
            }
            let mut sum = tmp[y][x];
            if y > 0 {
                sum += tmp[y - 1][x];
            }
            if y + 1 < height {
                sum += tmp[y + 1][x];
            }
            row.push(sum);
            x += 1;
        }
        out.push(row);
        y += 1;
    }
    out
}

/// No sum of three cells is negative.
pub proof fn lemma_row_sum_not_negative(grid: Seq<Seq<u16>>, y: int, x: int)
    ensures
        0 <= row_sum(grid, y, x),
{
}

/// The number of rolls that can be taken away: the cells that hold a roll, a one, with
/// fewer than four rolls in the eight cells around.
pub fn solution_part1(rolls: &Vec<Vec<u16>>) -> (r: u64)
    requires
        is_grid(rows(rolls@)),
        rolls@.len() * rolls@[0]@.len() <= u64::MAX,
    ensures
        r == free_rolls(rows(rolls@), rolls@.len() as int),
{
    let box_acc = box_accum_3x3(rolls);
    let ghost grid = rows(rolls@);
    assert(grid[0] == rolls@[0]@);
    let height = rolls.len();
    let width = rolls[0].len();
    let mut freed_rolls: u64 = 0;
    let mut y: usize = 0;
    while y < height
        invariant
            y <= height,
            height == rolls@.len(),
            width == rolls@[0]@.len(),
            grid == rows(rolls@),
            is_grid(grid),
            height * width <= u64::MAX,
            box_acc@.len() == height,
            forall|k: int| 0 <= k < height ==> (#[trigger] box_acc@[k])@.len() == width,
            forall|k: int, x: int|
                0 <= k < height && 0 <= x < width ==> (#[trigger] box_acc@[k]@[x]) as int
                    == box_sum(grid, k, x),
            freed_rolls == free_rolls(grid, y as int),
        decreases height - y,
    {
        let line = &rolls[y];
        assert(grid[y as int] == line@);
        let mut x: usize = 0;
        let ghost row_start = freed_rolls;
        while x < width
            invariant
                x <= width,
                y < height,
                height == rolls@.len(),
                width == line@.len(),
                grid == rows(rolls@),
                grid[y as int] == line@,
                is_grid(grid),
                height * width <= u64::MAX,
                box_acc@.len() == height,
                forall|k: int| 0 <= k < height ==> (#[trigger] box_acc@[k])@.len() == width,
                forall|k: int, c: int|
                    0 <= k < height && 0 <= c < width ==> (#[trigger] box_acc@[k]@[c]) as int
                        == box_sum(grid, k, c),
                row_start == free_rolls(grid, y as int),
                freed_rolls == row_start + free_in_row(grid, y as int, x as int),
            decreases width - x,
        {
            proof {
                lemma_free_rolls_bound(grid, y as int, width as int);
                lemma_free_in_row_bound(grid, y as int, x as int);
                assert(y * width + width <= height * width) by (nonlinear_arith)
                    requires
                        y < height,
                        0 <= width,
                ;
            }
            if line[x] == 1 && box_acc[y][x] - 1 < 4 {
                freed_rolls += 1;
            }
            x += 1;
        }
        y += 1;
    }
    freed_rolls
}

/// Takes away, at once, every roll that can be taken, and returns how many they were.
pub fn count_neighbor_rolls(rolls: &mut Vec<Vec<u16>>) -> (r: u64)
    requires
        is_grid(rows(old(rolls)@)),
        old(rolls)@.len() * old(rolls)@[0]@.len() <= u64::MAX,
    ensures
        r == free_rolls(rows(old(rolls)@), old(rolls)@.len() as int),
        rows(final(rolls)@) == without_free(rows(old(rolls)@)),
{
    let neighbor_counts = box_accum_3x3(rolls);
    let ghost grid = rows(rolls@);
    assert(grid[0] == rolls@[0]@);
    let height = rolls.len();
    let width = rolls[0].len();
    let mut after: Vec<Vec<u16>> = Vec::new();
    let mut freed_rolls: u64 = 0;
    let mut y: usize = 0;
    while y < height
        invariant
            y <= height,
            height == rolls@.len(),
            width == rolls@[0]@.len(),
            grid == rows(rolls@),
            is_grid(grid),
            height * width <= u64::MAX,
            neighbor_counts@.len() == height,
            forall|k: int| 0 <= k < height ==> (#[trigger] neighbor_counts@[k])@.len() == width,
            forall|k: int, x: int|
                0 <= k < height && 0 <= x < width ==> (#[trigger] neighbor_counts@[k]@[x]) as int
                    == box_sum(grid, k, x),
            freed_rolls == free_rolls(grid, y as int),
            after@.len() == y,
            forall|k: int| 0 <= k < y ==> (#[trigger] after@[k])@ == without_free(grid)[k],
        decreases height - y,
    {
        let line = &rolls[y];
        assert(grid[y as int] == line@);
        let mut row: Vec<u16> = Vec::new();
        let mut x: usize = 0;
        let ghost row_start = freed_rolls;
        while x < width
            invariant
                x <= width,
                y < height,
                height == rolls@.len(),
                width == line@.len(),
                grid == rows(rolls@),
                grid[y as int] == line@,
                is_grid(grid),
                height * width <= u64::MAX,
                neighbor_counts@.len() == height,
                forall|k: int| 0 <= k < height ==> (#[trigger] neighbor_counts@[k])@.len() == width,
                forall|k: int, c: int|
                    0 <= k < height && 0 <= c < width ==> (
                    #[trigger] neighbor_counts@[k]@[c]) as int == box_sum(grid, k, c),
                row_start == free_rolls(grid, y as int),
                freed_rolls == row_start + free_in_row(grid, y as int, x as int),
                row@.len() == x,
                forall|c: int| 0 <= c < x ==> #[trigger] row@[c] == without_free(grid)[y as int][c],
            decreases width - x,
        {
            proof {
                lemma_free_rolls_bound(grid, y as int, width as int);
                lemma_free_in_row_bound(grid, y as int, x as int);
                assert(y * width + width <= height * width) by (nonlinear_arith)
                    requires
                        y < height,
                        0 <= width,
                ;
            }
            if line[x] == 1 && neighbor_counts[y][x] - 1 < 4 {
                freed_rolls += 1;
                row.push(0);
            } else {
                row.push(line[x]);
            }
            x += 1;
        }
        assert(row@ =~= without_free(grid)[y as int]);
        after.push(row);
        y += 1;
    }
    *rolls = after;
    assert(rows(rolls@) =~= without_free(grid));
    freed_rolls
}

/// The number of rolls that are taken away when, round after round, every roll that can be
/// taken is, until a round takes none or a thousand rounds are over.
pub fn solution_part2(rolls: &mut Vec<Vec<u16>>) -> (r: u64)
    requires
        is_grid(rows(old(rolls)@)),
        old(rolls)@.len() * old(rolls)@[0]@.len() <= 0xffff_ffff,
    ensures
        r == taken_in_rounds(rows(old(rolls)@), 1000),
{
    let mut extractable_rolls: u64 = 0;
    let max_iters: u64 = 1000;
    let mut round: u64 = 0;
    let ghost cells = rolls@.len() * rolls@[0]@.len();
    assert(rows(rolls@)[0] == rolls@[0]@);
    while round < max_iters
        invariant
            round <= max_iters,
            max_iters == 1000,
            is_grid(rows(rolls@)),
            cells == rows(rolls@).len() * rows(rolls@)[0].len(),
            cells <= 0xffff_ffff,
            extractable_rolls <= round * 0xffff_ffff,
            taken_in_rounds(rows(old(rolls)@), 1000) == extractable_rolls + taken_in_rounds(
                rows(rolls@),
                (max_iters - round) as nat,
            ),
        decreases max_iters - round,
    {
        let ghost before = rows(rolls@);
        proof {
            assert(before[0] == rolls@[0]@);
            lemma_free_rolls_bound(before, before.len() as int, before[0].len() as int);
            lemma_without_free_is_grid(before);
        }
        let freed_rolls = count_neighbor_rolls(rolls);
        extractable_rolls += freed_rolls;
        if freed_rolls == 0 {
            return extractable_rolls;
        }
        round += 1;
    }
    extractable_rolls
}

/// What a mark of the map stands for: nothing for `.`, a roll for `@`, and its value for a
/// digit. Other marks stand for nothing.
pub open spec fn mark_value(b: u8) -> Option<u16> {
    if b == 46 {
        Some(0u16)
    } else if b == 64 {
        Some(1u16)
    } else if 48 <= b <= 57 {
        Some((b - 48) as u16)
    } else {
        None
    }
}

/// Every mark of every line stands for something.
pub open spec fn all_marks(map: Seq<Seq<u8>>) -> bool {
    forall|y: int, x: int|
        0 <= y < map.len() && 0 <= x < map[y].len() ==> mark_value(#[trigger] map[y][x]) is Some
}

/// The cells that the marks of the lines stand for.
pub open spec fn cells_of(map: Seq<Seq<u8>>) -> Seq<Seq<u16>> {
    Seq::new(
        map.len(),
        |y: int| Seq::new(map[y].len(), |x: int| mark_value(map[y][x]).unwrap()),
    )
}

/// Reads the map of the rolls, one row per line. `None` where a mark is none of `.`, `@` and
/// the digits.
pub fn parse_input(input: &str) -> (r: Option<Vec<Vec<u16>>>)
    ensures
        match r {
            Some(grid) => all_marks(lines(input.spec_bytes())) && rows(grid@) == cells_of(
                lines(input.spec_bytes()),
            ),
            None => !all_marks(lines(input.spec_bytes())),
        },
{
    let map = split_lines(input.as_bytes());
    let ghost all = lines(input.spec_bytes());
    let mut grid: Vec<Vec<u16>> = Vec::new();
    let mut y: usize = 0;
    while y < map.len()
        invariant
            y <= map.len(),
            all == views(map@),
            all == lines(input.spec_bytes()),
            grid@.len() == y,
            forall|k: int, x: int|
                0 <= k < y && 0 <= x < all[k].len() ==> mark_value(#[trigger] all[k][x]) is Some,
            forall|k: int| 0 <= k < y ==> (#[trigger] grid@[k])@ == cells_of(all)[k],
        decreases map.len() - y,
    {
        let line = &map[y];
        assert(all[y as int] == line@);
        let mut row: Vec<u16> = Vec::new();
        let mut x: usize = 0;
        while x < line.len()
            invariant
                x <= line.len(),
                y < map.len(),
                all == views(map@),
                all == lines(input.spec_bytes()),
                all[y as int] == line@,
                row@.len() == x,
                forall|c: int| 0 <= c < x ==> mark_value(#[trigger] line@[c]) is Some,
                forall|c: int| 0 <= c < x ==> #[trigger] row@[c] == mark_value(line@[c]).unwrap(),
            decreases line.len() - x,
        {
            let b = line[x];
            if b == 46 {
                row.push(0);
            } else if b == 64 {
                row.push(1);
            } else if 48 <= b && b <= 57 {
                row.push((b - 48) as u16);
            } else {
                assert(mark_value(all[y as int][x as int]) is None);
                return None;
            }
            x += 1;
        }
        assert(row@ =~= cells_of(all)[y as int]);
        grid.push(row);
        y += 1;
    }
    assert(rows(grid@) =~= cells_of(all));
    Some(grid)
}

/// Adds up a cell and its neighbours to the left and to the right, in a number wide enough
/// for any three cells.
fn wide_row_sum(grid: &Vec<Vec<u16>>, y: usize, x: usize) -> (r: u32)
    requires
        y < grid@.len(),
        x < grid@[y as int]@.len(),
    ensures
        r == row_sum(rows(grid@), y as int, x as int),
{
    let line = &grid[y];
    assert(rows(grid@)[y as int] == line@);
    let width = line.len();
    let mut sum: u32 = line[x] as u32;
    if x > 0 {
        sum += line[x - 1] as u32;
    }
    if x + 1 < width {
        sum += line[x + 1] as u32;
    }
    sum
}

/// Tells whether the rows hold a grid: a row at least, all rows as wide as the first, and
/// the sum over the box around each cell within a `u16`.
pub fn check_grid(grid: &Vec<Vec<u16>>) -> (r: bool)
    ensures
        r == is_grid(rows(grid@)),
{
    if grid.len() == 0 {
        return false;
    }
    let ghost all = rows(grid@);
    assert(all[0] == grid@[0]@);
    let height = grid.len();
    let width = grid[0].len();
    let mut y: usize = 0;
    while y < height
        invariant
            y <= height,
            height == grid@.len(),
            all == rows(grid@),
            width == all[0].len(),
            forall|k: int| 0 <= k < y ==> (#[trigger] all[k]).len() == width,
        decreases height - y,
    {
        assert(all[y as int] == grid@[y as int]@);
        if grid[y].len() != width {
            return false;
        }
        y += 1;
    }
    let mut y: usize = 0;
    while y < height
        invariant
            y <= height,
            height == grid@.len(),
            all == rows(grid@),
            width == all[0].len(),
            forall|k: int| 0 <= k < height ==> (#[trigger] all[k]).len() == width,
            forall|k: int, x: int|
                0 <= k < y && 0 <= x < width ==> #[trigger] box_sum(all, k, x) <= u16::MAX,
        decreases height - y,
    {
        let mut x: usize = 0;
        while x < width
            invariant
                x <= width,
                y < height,
                height == grid@.len(),
                all == rows(grid@),
                width == all[0].len(),
                forall|k: int| 0 <= k < height ==> (#[trigger] all[k]).len() == width,
                forall|c: int| 0 <= c < x ==> #[trigger] box_sum(all, y as int, c) <= u16::MAX,
            decreases width - x,
        {
            proof {
                assert(all[y as int].len() == width);
                assert(all[y as int] == grid@[y as int]@);
                if y > 0 {
                    assert(all[y - 1].len() == width);
                    assert(all[y - 1] == grid@[y - 1]@);
                }
                if y + 1 < height {
                    assert(all[y + 1].len() == width);
                    assert(all[y + 1] == grid@[y + 1]@);
                }
            }
            let mut sum: u32 = wide_row_sum(grid, y, x);
            if y > 0 {
                sum += wide_row_sum(grid, y - 1, x);
            }
            if y + 1 < height {
                sum += wide_row_sum(grid, y + 1, x);
            }
            if sum > 0xffff {
                assert(box_sum(all, y as int, x as int) > u16::MAX);
                return false;
            }
            x += 1;
        }
        y += 1;
    }
    true
}

} // verus!
