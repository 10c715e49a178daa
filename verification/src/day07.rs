//! Beams that fall through a manifold of splitters: a beam that meets a
//! splitter stops, and a beam goes on to the left and to the right of it.

use crate::text::{find_mark, first_mark, lines, split_lines, views};
use vstd::prelude::*;
use vstd::string::StringSliceAdditionalSpecFns;

verus! {

/// `bit_vec::BitVec`, a vector of bits. Opaque: [`bits_of`] names what it holds.
#[verifier::external_type_specification]
#[verifier::external_body]
#[verifier::reject_recursive_types(B)]
pub struct ExBitVec<B>(bit_vec::BitVec<B>);

/// The bits that a bit vector holds, in order.
pub uninterp spec fn bits_of(bits: bit_vec::BitVec) -> Seq<bool>;

/// Calls `BitVec::from_elem` of `bit_vec` with the bit `false`: a vector of `len` bits, all
/// of them off.
#[verifier::external_body]
fn all_off(len: usize) -> (r: bit_vec::BitVec)
    ensures
        bits_of(r) == Seq::new(len as nat, |i: int| false),
{
    bit_vec::BitVec::from_elem(len, false)
}

/// Calls `BitVec::set` of `bit_vec`, which panics beyond the length and changes the one bit.
#[verifier::external_body]
fn put_bit(bits: &mut bit_vec::BitVec, i: usize, x: bool)
    requires
        i < bits_of(*old(bits)).len(),
    ensures
        bits_of(*final(bits)) == bits_of(*old(bits)).update(i as int, x),
{
    bits.set(i, x)
}

/// Indexes a `BitVec` of `bit_vec`, which panics beyond the length and gives the bit.
#[verifier::external_body]
fn bit_at(bits: &bit_vec::BitVec, i: usize) -> (r: bool)
    requires
        i < bits_of(*bits).len(),
    ensures
        r == bits_of(*bits)[i as int],
{
    bits[i]
}

/// The column to the right of `col`, or `col` itself at the right edge.
pub open spec fn right_of(col: int, width: int) -> int {
    if col + 1 <= width - 1 {
        col + 1
    } else {
        width - 1
    }
}

/// The beams and the count of splits after the marks of the first `upto` columns of a row
/// are met, from the left. A splitter, `^`, with a beam above it stops the beam, lights the
/// columns beside it and counts one. There is no state where a splitter is beyond the width
/// of the manifold, where a beam meets a splitter in the first column, or where the count
/// would pass the range of a `u64`.
pub open spec fn beams_after_marks(state: Option<(Seq<bool>, int)>, row: Seq<u8>, upto: int) -> Option<
    (Seq<bool>, int),
>
    decreases upto,
{
    if upto <= 0 {
        state
    } else {
        match beams_after_marks(state, row, upto - 1) {
            None => None,
            Some((beams, count)) => if row[upto - 1] != 94 {
                Some((beams, count))
            } else if upto - 1 >= beams.len() {
                None
            } else if !beams[upto - 1] {
                Some((beams, count))
            } else if upto - 1 == 0 || count >= u64::MAX {
                None
            } else {
                Some(
                    (
                        beams.update(upto - 1, false).update(upto - 2, true).update(
                            right_of(upto - 1, beams.len() as int),
                            true,
                        ),
                        count + 1,
                    ),
                )
            },
        }
    }
}

/// The beams and the count of splits after the rows 1 to `upto - 1` of the manifold, the
/// one beam starting at the `S` of row 0. There is no state where there is no row 0 or no
/// `S` in it.
pub open spec fn beams_after_rows(manifold: Seq<Seq<u8>>, upto: int) -> Option<(Seq<bool>, int)>
    decreases upto,
{
    if manifold.len() == 0 || first_mark(manifold[0], 83, 0) >= manifold[0].len() {
        None
    } else if upto <= 1 {
        Some(
            (
                Seq::new(manifold[0].len(), |i: int| false).update(
                    first_mark(manifold[0], 83, 0),
                    true,
                ),
                0int,
            ),
        )
    } else {
        beams_after_marks(
            beams_after_rows(manifold, upto - 1),
            manifold[upto - 1],
            manifold[upto - 1].len() as int,
        )
    }
}

/// Once there is no state, none comes of more marks.
pub proof fn lemma_marks_fail(row: Seq<u8>, upto: int)
    ensures
        beams_after_marks(None, row, upto) is None,
    decreases upto,
{
    if upto > 0 {
        lemma_marks_fail(row, upto - 1);
    }
}

/// Once there is no state after some marks of a row, there is none after the row.
pub proof fn lemma_marks_stuck(state: Option<(Seq<bool>, int)>, row: Seq<u8>, upto: int, end: int)
    requires
        0 <= upto <= end,
        beams_after_marks(state, row, upto) is None,
    ensures
        beams_after_marks(state, row, end) is None,
    decreases end - upto,
{
    if upto < end {
        lemma_marks_stuck(state, row, upto, end - 1);
    }
}

/// Once there is no state after some rows, there is none after more.
pub proof fn lemma_rows_stuck(manifold: Seq<Seq<u8>>, upto: int, end: int)
    requires
        1 <= upto <= end,
        beams_after_rows(manifold, upto) is None,
    ensures
        beams_after_rows(manifold, end) is None,
    decreases end - upto,
{
    if upto < end {
        lemma_rows_stuck(manifold, upto, end - 1);
        lemma_marks_fail(manifold[end - 1], manifold[end - 1].len() as int);
    }
}

/// The number of times that a beam is split on its way through the manifold that the text
/// draws, one row per line.
///
/// `None` where the text has no line or its first line no `S`, where a splitter stands
/// beyond the width of the first line, or where a beam meets a splitter in the first column.
pub fn solution_part1(input: &str) -> (r: Option<u64>)
    ensures
        r == match beams_after_rows(
            lines(input.spec_bytes()),
            lines(input.spec_bytes()).len() as int,
        ) {
            Some(state) => Some(state.1 as u64),
            None => None,
        },
{
    let rows = split_lines(input.as_bytes());
    let ghost all = lines(input.spec_bytes());
    if rows.len() == 0 {
        return None;
    }
    assert(all[0] == rows@[0]@);
    let linelength = rows[0].len();
    let start_idx = find_mark(rows[0].as_slice(), 83);
    if start_idx >= linelength {
        return None;
    }
    let mut beams = all_off(linelength);
    put_bit(&mut beams, start_idx, true);
    let mut split_counter: u64 = 0;
    let mut y: usize = 1;
    while y < rows.len()
        invariant
            1 <= y <= rows.len(),
            all == views(rows@),
            all == lines(input.spec_bytes()),
            linelength == bits_of(beams).len(),
            beams_after_rows(all, y as int) == Some((bits_of(beams), split_counter as int)),
        decreases rows.len() - y,
    {
        let row = &rows[y];
        assert(all[y as int] == row@);
        let ghost before = beams_after_rows(all, y as int);
        let mut splitter: usize = 0;
        while splitter < row.len()
            invariant
                splitter <= row.len(),
                1 <= y < rows.len(),
                all == views(rows@),
                all == lines(input.spec_bytes()),
                all[y as int] == row@,
                before == beams_after_rows(all, y as int),
                linelength == bits_of(beams).len(),
                beams_after_marks(before, row@, splitter as int) == Some(
                    (bits_of(beams), split_counter as int),
                ),
            decreases row.len() - splitter,
        {
            if row[splitter] == 94 {
                if splitter >= linelength {
                    proof {
                        lemma_marks_stuck(before, row@, splitter + 1, row@.len() as int);
                        lemma_rows_stuck(all, y + 1, all.len() as int);
                    }
                    return None;
                }
                if bit_at(&beams, splitter) {
                    if splitter == 0 || split_counter == u64::MAX {
                        proof {
                            lemma_marks_stuck(before, row@, splitter + 1, row@.len() as int);
                            lemma_rows_stuck(all, y + 1, all.len() as int);
                        }
                        return None;
                    }
                    split_counter += 1;
                    put_bit(&mut beams, splitter, false);
                    put_bit(&mut beams, splitter - 1, true);
                    let right = if splitter + 1 <= linelength - 1 {
                        splitter + 1
                    } else {
                        linelength - 1
                    };
                    put_bit(&mut beams, right, true);
                }
            }
            splitter += 1;
        }
        y += 1;
    }
    Some(split_counter)
}

/// The sum of the first `upto` numbers.
pub open spec fn sum_of(values: Seq<int>, upto: int) -> int
    decreases upto,
{
    if upto <= 0 {
        0
    } else {
        sum_of(values, upto - 1) + values[upto - 1]
    }
}

/// The timelines in each column after the marks of the first `upto` columns of a row are
/// met, from the left. A splitter with timelines above it sends them on to the column on
/// its left and, once more, to the column on its right. There is no state where a splitter
/// is beyond the width of the manifold, where timelines meet a splitter in the first
/// column, or where a number of timelines would pass the range of a `u64`.
pub open spec fn timelines_after_marks(state: Option<Seq<int>>, row: Seq<u8>, upto: int) -> Option<
    Seq<int>,
>
    decreases upto,
{
    if upto <= 0 {
        state
    } else {
        match timelines_after_marks(state, row, upto - 1) {
            None => None,
            Some(timelines) => if row[upto - 1] != 94 {
                Some(timelines)
            } else if upto - 1 >= timelines.len() {
                None
            } else if timelines[upto - 1] == 0 {
                Some(timelines)
            } else if upto - 1 == 0 {
                None
            } else {
                let moved = timelines[upto - 1];
                let cleared = timelines.update(upto - 1, 0);
                let left = cleared.update(upto - 2, cleared[upto - 2] + moved);
                let right = right_of(upto - 1, timelines.len() as int);
                if cleared[upto - 2] + moved > u64::MAX || left[right] + moved > u64::MAX {
                    None
                } else {
                    Some(left.update(right, left[right] + moved))
                }
            },
        }
    }
}

/// The timelines in each column after the rows 1 to `upto - 1` of the manifold, the one
/// timeline starting at the `S` of row 0.
pub open spec fn timelines_after_rows(manifold: Seq<Seq<u8>>, upto: int) -> Option<Seq<int>>
    decreases upto,
{
    if manifold.len() == 0 || first_mark(manifold[0], 83, 0) >= manifold[0].len() {
        None
    } else if upto <= 1 {
        Some(
            Seq::new(manifold[0].len(), |i: int| 0int).update(first_mark(manifold[0], 83, 0), 1int),
        )
    } else {
        timelines_after_marks(
            timelines_after_rows(manifold, upto - 1),
            manifold[upto - 1],
            manifold[upto - 1].len() as int,
        )
    }
}

/// The number of timelines at the bottom of the manifold, or none where it does not fit a
/// `u64`.
pub open spec fn timelines_total(manifold: Seq<Seq<u8>>) -> Option<u64> {
    match timelines_after_rows(manifold, manifold.len() as int) {
        None => None,
        Some(timelines) => if sum_of(timelines, timelines.len() as int) <= u64::MAX {
            Some(sum_of(timelines, timelines.len() as int) as u64)
        } else {
            None
        },
    }
}

/// Once there is no state, none comes of more marks.
pub proof fn lemma_timeline_marks_fail(row: Seq<u8>, upto: int)
    ensures
        timelines_after_marks(None, row, upto) is None,
    decreases upto,
{
    if upto > 0 {
        lemma_timeline_marks_fail(row, upto - 1);
    }
}

/// Once there is no state after some marks of a row, there is none after the row.
pub proof fn lemma_timeline_marks_stuck(state: Option<Seq<int>>, row: Seq<u8>, upto: int, end: int)
    requires
        0 <= upto <= end,
        timelines_after_marks(state, row, upto) is None,
    ensures
        timelines_after_marks(state, row, end) is None,
    decreases end - upto,
{
    if upto < end {
        lemma_timeline_marks_stuck(state, row, upto, end - 1);
    }
}

/// Once there is no state after some rows, there is none after more.
pub proof fn lemma_timeline_rows_stuck(manifold: Seq<Seq<u8>>, upto: int, end: int)
    requires
        1 <= upto <= end,
        timelines_after_rows(manifold, upto) is None,
    ensures
        timelines_after_rows(manifold, end) is None,
    decreases end - upto,
{
    if upto < end {
        lemma_timeline_rows_stuck(manifold, upto, end - 1);
        lemma_timeline_marks_fail(manifold[end - 1], manifold[end - 1].len() as int);
    }
}

/// The numbers as integers.
pub open spec fn as_ints(values: Seq<u64>) -> Seq<int> {
    Seq::new(values.len(), |i: int| values[i] as int)
}

/// A sum of numbers that are not negative grows with the count of numbers.
pub proof fn lemma_sum_grows(values: Seq<u64>, upto: int)
    requires
        0 <= upto <= values.len(),
    ensures
        0 <= sum_of(as_ints(values), upto) <= sum_of(as_ints(values), values.len() as int),
    decreases values.len() - upto,
{
    if upto < values.len() {
        lemma_sum_grows(values, upto + 1);
    }
    lemma_sum_nonnegative(values, upto);
}

/// A sum of numbers that are not negative is not negative.
proof fn lemma_sum_nonnegative(values: Seq<u64>, upto: int)
    requires
        0 <= upto <= values.len(),
    ensures
        0 <= sum_of(as_ints(values), upto),
    decreases upto,
{
    if upto > 0 {
        lemma_sum_nonnegative(values, upto - 1);
    }
}

/// The number of timelines that a particle has at the bottom of the manifold that the text
/// draws, one row per line.
///
/// `None` where the text has no line or its first line no `S`, where a splitter stands
/// beyond the width of the first line, where timelines meet a splitter in the first column,
/// or where a number of timelines does not fit a `u64`.
pub fn solution_part2(input: &str) -> (r: Option<u64>)
    ensures
        r == timelines_total(lines(input.spec_bytes())),
{
    let rows = split_lines(input.as_bytes());
    let ghost all = lines(input.spec_bytes());
    if rows.len() == 0 {
        return None;
    }
    assert(all[0] == rows@[0]@);
    let linelength = rows[0].len();
    let start_idx = find_mark(rows[0].as_slice(), 83);
    if start_idx >= linelength {
        return None;
    }
    let mut timelines: Vec<u64> = Vec::new();
    let mut i: usize = 0;
    while i < linelength
        invariant
            i <= linelength,
            timelines@ == Seq::new(i as nat, |k: int| 0u64),
        decreases linelength - i,
    {
        timelines.push(0);
        assert(timelines@ =~= Seq::new((i + 1) as nat, |k: int| 0u64));
        i += 1;
    }
    timelines.set(start_idx, 1);
    assert(as_ints(timelines@) =~= Seq::new(linelength as nat, |i: int| 0int).update(
        start_idx as int,
        1int,
    ));
    let mut y: usize = 1;
    while y < rows.len()
        invariant
            1 <= y <= rows.len(),
            all == views(rows@),
            all == lines(input.spec_bytes()),
            linelength == timelines@.len(),
            timelines_after_rows(all, y as int) == Some(as_ints(timelines@)),
        decreases rows.len() - y,
    {
        let row = &rows[y];
        assert(all[y as int] == row@);
        let ghost before = timelines_after_rows(all, y as int);
        let mut splitter: usize = 0;
        while splitter < row.len()
            invariant
                splitter <= row.len(),
                1 <= y < rows.len(),
                all == views(rows@),
                all == lines(input.spec_bytes()),
                all[y as int] == row@,
                before == timelines_after_rows(all, y as int),
                linelength == timelines@.len(),
                timelines_after_marks(before, row@, splitter as int) == Some(as_ints(timelines@)),
            decreases row.len() - splitter,
        {
            if row[splitter] == 94 {
                if splitter >= linelength {
                    proof {
                        lemma_timeline_marks_stuck(before, row@, splitter + 1, row@.len() as int);
                        lemma_timeline_rows_stuck(all, y + 1, all.len() as int);
                    }
                    return None;
                }
                let num_timelines = timelines[splitter];
                if num_timelines != 0 {
                    if splitter == 0 {
                        proof {
                            lemma_timeline_marks_stuck(
                                before,
                                row@,
                                splitter + 1,
                                row@.len() as int,
                            );
                            lemma_timeline_rows_stuck(all, y + 1, all.len() as int);
                        }
                        return None;
                    }
                    let ghost old_timelines = as_ints(timelines@);
                    timelines.set(splitter, 0);
                    let right = if splitter + 1 <= linelength - 1 {
                        splitter + 1
                    } else {
                        linelength - 1
                    };
                    let to_left = timelines[splitter - 1].checked_add(num_timelines);
                    let ghost cleared = as_ints(timelines@);
                    assert(cleared =~= old_timelines.update(splitter as int, 0));
                    match to_left {
                        Some(sum) => {
                            timelines.set(splitter - 1, sum);
                        },
                        None => {
                            proof {
                                lemma_timeline_marks_stuck(
                                    before,
                                    row@,
                                    splitter + 1,
                                    row@.len() as int,
                                );
                                lemma_timeline_rows_stuck(all, y + 1, all.len() as int);
                            }
                            return None;
                        },
                    }
                    let ghost left = as_ints(timelines@);
                    assert(left =~= cleared.update(splitter - 1, cleared[splitter - 1] + num_timelines));
                    match timelines[right].checked_add(num_timelines) {
                        Some(sum) => {
                            timelines.set(right, sum);
                        },
                        None => {
                            proof {
                                lemma_timeline_marks_stuck(
                                    before,
                                    row@,
                                    splitter + 1,
                                    row@.len() as int,
                                );
                                lemma_timeline_rows_stuck(all, y + 1, all.len() as int);
                            }
                            return None;
                        },
                    }
                    assert(as_ints(timelines@) =~= left.update(right as int, left[right as int] + num_timelines));
                }
            }
            splitter += 1;
        }
        y += 1;
    }
    let mut total: u64 = 0;
    let mut i: usize = 0;
    while i < timelines.len()
        invariant
            i <= timelines@.len(),
            all == lines(input.spec_bytes()),
            timelines_after_rows(all, all.len() as int) == Some(as_ints(timelines@)),
            total == sum_of(as_ints(timelines@), i as int),
        decreases timelines@.len() - i,
    {
        proof {
            lemma_sum_grows(timelines@, i + 1);
        }
        total = match total.checked_add(timelines[i]) {
            Some(sum) => sum,
            None => {
                return None;
            },
        };
        i += 1;
    }
    Some(total)
}

} // verus!
