//! Ranges of fresh ingredient ids: merging ranges that overlap, counting the
//! ids that a range holds, and counting the ids of all ranges.

use crate::text::{fields, lines, number_u64, parse_u64, split_fields, split_lines, views, Separator};
use vstd::prelude::*;
use vstd::string::StringSliceAdditionalSpecFns;

verus! {

/// The starts never fall along the list.
pub open spec fn sorted_by_start(ranges: Seq<(u64, u64)>) -> bool {
    forall|i: int, j: int| 0 <= i <= j < ranges.len() ==> (#[trigger] ranges[i]).0 <= (
    #[trigger] ranges[j]).0
}

/// Some range among the first `upto` holds `id`, its two ends included.
pub open spec fn covered(ranges: Seq<(u64, u64)>, upto: int, id: int) -> bool {
    exists|i: int| 0 <= i < upto && (#[trigger] ranges[i]).0 <= id <= ranges[i].1
}

/// The list after `range` is merged in at its end: joined with the last range when it
/// starts no later than that one ends, and added as a range of its own otherwise.
pub open spec fn merge_in(merged: Seq<(u64, u64)>, range: (u64, u64)) -> Seq<(u64, u64)> {
    if merged.len() > 0 && merged.last().1 >= range.0 {
        merged.update(
            merged.len() - 1,
            (
                merged.last().0,
                if merged.last().1 >= range.1 {
                    merged.last().1
                } else {
                    range.1
                },
            ),
        )
    } else {
        merged.push(range)
    }
}

/// The ranges of `sorted`, merged one after the other from the left.
pub open spec fn merged(sorted: Seq<(u64, u64)>) -> Seq<(u64, u64)>
    decreases sorted.len(),
{
    if sorted.len() == 0 {
        Seq::empty()
    } else {
        merge_in(merged(sorted.drop_last()), sorted.last())
    }
}

/// `result` is what merging gives for the ranges of `given`, put in the order of their
/// starts.
pub open spec fn is_merge_of(result: Seq<(u64, u64)>, given: Seq<(u64, u64)>) -> bool {
    exists|sorted: Seq<(u64, u64)>|
        {
            &&& sorted_by_start(sorted)
            &&& sorted.to_multiset() == given.to_multiset()
            &&& result == #[trigger] merged(sorted)
        }
}

/// Each range ends before the next one starts.
pub open spec fn separated(ranges: Seq<(u64, u64)>) -> bool {
    forall|i: int| 0 <= i < ranges.len() - 1 ==> (#[trigger] ranges[i]).1 < ranges[i + 1].0
}

/// Merging keeps the ranges apart and in order, starts the last range no later than the
/// last range merged in, and covers the ids that were covered and no others.
pub proof fn lemma_merged(sorted: Seq<(u64, u64)>)
    requires
        sorted_by_start(sorted),
    ensures
        separated(merged(sorted)),
        merged(sorted).len() <= sorted.len(),
        sorted.len() > 0 ==> merged(sorted).len() > 0 && merged(sorted).last().0
            <= sorted.last().0,
        forall|id: int|
            #![trigger covered(merged(sorted), merged(sorted).len() as int, id)]
            #![trigger covered(sorted, sorted.len() as int, id)]
            covered(merged(sorted), merged(sorted).len() as int, id) <==> covered(
                sorted,
                sorted.len() as int,
                id,
            ),
    decreases sorted.len(),
{
    if sorted.len() > 0 {
        let front = sorted.drop_last();
        let range = sorted.last();
        let before = merged(front);
        let after = merged(sorted);
        assert forall|i: int, j: int| 0 <= i <= j < front.len() implies (#[trigger] front[i]).0 <= (
        #[trigger] front[j]).0 by {
            assert(front[i] == sorted[i]);
            assert(front[j] == sorted[j]);
        }
        lemma_merged(front);
        if front.len() > 0 {
            assert(front.last() == sorted[front.len() - 1]);
            assert(sorted[front.len() - 1].0 <= sorted[sorted.len() - 1].0);
        }
        assert forall|i: int| 0 <= i < after.len() - 1 implies (#[trigger] after[i]).1 < after[i
            + 1].0 by {
            if i + 1 < before.len() {
                assert(before[i].1 < before[i + 1].0);
            }
        }
        assert forall|id: int|
            covered(after, after.len() as int, id) <==> covered(
                sorted,
                sorted.len() as int,
                id,
            ) by {
            let joined = before.len() > 0 && before.last().1 >= range.0;
            if covered(after, after.len() as int, id) {
                let i = choose|i: int|
                    0 <= i < after.len() && (#[trigger] after[i]).0 <= id <= after[i].1;
                if i < before.len() - 1 || (i == before.len() - 1 && !joined) {
                    assert(before[i] == after[i]);
                    assert(covered(before, before.len() as int, id));
                    assert(covered(front, front.len() as int, id));
                    let k = choose|k: int|
                        0 <= k < front.len() && (#[trigger] front[k]).0 <= id <= front[k].1;
                    assert(sorted[k] == front[k]);
                } else if joined {
                    if id <= before.last().1 {
                        assert(before[before.len() - 1].0 <= id <= before[before.len() - 1].1);
                        assert(covered(before, before.len() as int, id));
                        assert(covered(front, front.len() as int, id));
                        let k = choose|k: int|
                            0 <= k < front.len() && (#[trigger] front[k]).0 <= id <= front[k].1;
                        assert(sorted[k] == front[k]);
                    } else {
                        assert(sorted[sorted.len() - 1].0 <= id <= sorted[sorted.len() - 1].1);
                    }
                } else {
                    assert(sorted[sorted.len() - 1].0 <= id <= sorted[sorted.len() - 1].1);
                }
            }
            if covered(sorted, sorted.len() as int, id) {
                let k = choose|k: int|
                    0 <= k < sorted.len() && (#[trigger] sorted[k]).0 <= id <= sorted[k].1;
                if k < front.len() {
                    assert(front[k] == sorted[k]);
                    assert(covered(front, front.len() as int, id));
                    assert(covered(before, before.len() as int, id));
                    let i = choose|i: int|
                        0 <= i < before.len() && (#[trigger] before[i]).0 <= id <= before[i].1;
                    assert(after[i].0 <= id <= after[i].1);
                } else {
                    assert(after[after.len() - 1].0 <= id <= after[after.len() - 1].1);
                }
            }
        }
    }
}

/// Calls `sort_by_key` of std on the vector, with the start of a range as its key. Its
/// documentation promises that the items are then in the order of their keys and that none
/// is lost or made up: that is what is claimed.
#[verifier::external_body]
fn sort_by_start(ranges: &mut Vec<(u64, u64)>)
    ensures
        sorted_by_start(final(ranges)@),
        final(ranges)@.to_multiset() == old(ranges)@.to_multiset(),
{
    ranges.sort_by_key(|range| range.0)
}

/// Merges the ranges that overlap or touch.
///
/// The ranges are put in the order of their starts and then merged from the left, a range
/// being joined with the one before when it starts no later than that one ends. The result
/// covers the ids that the ranges cover, in ranges that lie apart and in ascending order.
pub fn merge_intervals(id_ranges: Vec<(u64, u64)>) -> (result: Vec<(u64, u64)>)
    ensures
        is_merge_of(result@, id_ranges@),
        separated(result@),
        forall|id: int|
            covered(result@, result@.len() as int, id) <==> covered(
                id_ranges@,
                id_ranges@.len() as int,
                id,
            ),
{
    let mut id_ranges = id_ranges;
    let ghost given = id_ranges@;
    sort_by_start(&mut id_ranges);
    let ghost sorted = id_ranges@;
    let mut result: Vec<(u64, u64)> = Vec::new();
    let mut i: usize = 0;
    while i < id_ranges.len()
        invariant
            i <= id_ranges.len(),
            sorted == id_ranges@,
            result@ == merged(sorted.take(i as int)),
        decreases id_ranges.len() - i,
    {
        let (start, end) = id_ranges[i];
        proof {
            assert(sorted.take(i + 1).drop_last() == sorted.take(i as int));
            assert(sorted.take(i + 1).last() == (start, end));
        }
        let n = result.len();
        if n > 0 && result[n - 1].1 >= start {
            let last = result[n - 1];
            let last_end = if last.1 >= end {
                last.1
            } else {
                end
            };
            result.set(n - 1, (last.0, last_end));
        } else {
            result.push((start, end));
        }
        i += 1;
    }
    proof {
        assert(sorted.take(i as int) == sorted);
        assert(result@ == merged(sorted));
        lemma_merged(sorted);
        assert forall|id: int|
            covered(sorted, sorted.len() as int, id) <==> covered(
                given,
                given.len() as int,
                id,
            ) by {
            lemma_same_ranges_cover_alike(sorted, given, id);
            lemma_same_ranges_cover_alike(given, sorted, id);
        }
    }
    result
}

/// Lists of the same ranges, in whatever order, cover the same ids.
pub proof fn lemma_same_ranges_cover_alike(first: Seq<(u64, u64)>, second: Seq<(u64, u64)>, id: int)
    requires
        first.to_multiset() == second.to_multiset(),
    ensures
        covered(first, first.len() as int, id) ==> covered(second, second.len() as int, id),
{
    broadcast use vstd::seq_lib::group_to_multiset_ensures;

    if covered(first, first.len() as int, id) {
        let i = choose|i: int| 0 <= i < first.len() && (#[trigger] first[i]).0 <= id <= first[i].1;
        assert(first.to_multiset().count(first[i]) > 0);
        assert(second.to_multiset().count(first[i]) > 0);
        assert(second.contains(first[i]));
        let k = choose|k: int| 0 <= k < second.len() && second[k] == first[i];
        assert(second[k].0 <= id <= second[k].1);
    }
}

/// The number of the first `upto` ids that some range holds.
pub open spec fn fresh_count(ranges: Seq<(u64, u64)>, ids: Seq<u64>, upto: int) -> nat
    decreases upto,
{
    if upto <= 0 {
        0
    } else {
        fresh_count(ranges, ids, upto - 1) + if covered(
            ranges,
            ranges.len() as int,
            ids[upto - 1] as int,
        ) {
            1nat
        } else {
            0nat
        }
    }
}

/// The number of ids that the first `upto` ranges hold in all, each range counted by itself.
pub open spec fn span_total(ranges: Seq<(u64, u64)>, upto: int) -> int
    decreases upto,
{
    if upto <= 0 {
        0
    } else {
        span_total(ranges, upto - 1) + (ranges[upto - 1].1 - ranges[upto - 1].0 + 1)
    }
}

/// No range ends before it starts.
pub open spec fn well_formed(ranges: Seq<(u64, u64)>) -> bool {
    forall|i: int| 0 <= i < ranges.len() ==> (#[trigger] ranges[i]).0 <= ranges[i].1
}

/// Fewer ranges hold fewer ids.
pub proof fn lemma_span_total_grows(ranges: Seq<(u64, u64)>, upto: int)
    requires
        well_formed(ranges),
        0 <= upto <= ranges.len(),
    ensures
        0 <= span_total(ranges, upto) <= span_total(ranges, ranges.len() as int),
    decreases ranges.len() - upto,
{
    if upto < ranges.len() {
        lemma_span_total_grows(ranges, upto + 1);
    }
    lemma_span_total_nonnegative(ranges, upto);
}

/// Ranges that do not end before they start hold no negative number of ids.
proof fn lemma_span_total_nonnegative(ranges: Seq<(u64, u64)>, upto: int)
    requires
        well_formed(ranges),
        0 <= upto <= ranges.len(),
    ensures
        0 <= span_total(ranges, upto),
    decreases upto,
{
    if upto > 0 {
        lemma_span_total_nonnegative(ranges, upto - 1);
    }
}

/// Tells whether some range holds `id`.
pub fn is_fresh(id_ranges: &Vec<(u64, u64)>, id: u64) -> (r: bool)
    ensures
        r == covered(id_ranges@, id_ranges@.len() as int, id as int),
{
    let mut i: usize = 0;
    while i < id_ranges.len()
        invariant
            i <= id_ranges.len(),
            !covered(id_ranges@, i as int, id as int),
        decreases id_ranges.len() - i,
    {
        if id_ranges[i].0 <= id && id <= id_ranges[i].1 {
            return true;
        }
        i += 1;
    }
    false
}

/// The number of ids of `ids` that some range holds.
pub fn solution_part1(id_ranges: &Vec<(u64, u64)>, ids: &Vec<u64>) -> (r: u64)
    ensures
        r == fresh_count(id_ranges@, ids@, ids@.len() as int),
{
    let mut count: u64 = 0;
    let mut i: usize = 0;
    while i < ids.len()
        invariant
            i <= ids.len(),
            count <= i,
            count == fresh_count(id_ranges@, ids@, i as int),
        decreases ids.len() - i,
    {
        if is_fresh(id_ranges, ids[i]) {
            count += 1;
        }
        i += 1;
    }
    count
}

/// The number of ids that the ranges hold in all. For ranges that lie apart, as those that
/// [`merge_intervals`] returns, that is the number of ids that some range holds.
pub fn solution_part2(id_ranges: &Vec<(u64, u64)>) -> (r: u64)
    requires
        well_formed(id_ranges@),
        span_total(id_ranges@, id_ranges@.len() as int) <= u64::MAX,
    ensures
        r == span_total(id_ranges@, id_ranges@.len() as int),
{
    let mut total: u64 = 0;
    let mut i: usize = 0;
    while i < id_ranges.len()
        invariant
            i <= id_ranges.len(),
            well_formed(id_ranges@),
            span_total(id_ranges@, id_ranges@.len() as int) <= u64::MAX,
            total == span_total(id_ranges@, i as int),
        decreases id_ranges.len() - i,
    {
        proof {
            lemma_span_total_grows(id_ranges@, i + 1);
            lemma_span_total_grows(id_ranges@, i as int);
        }
        let (start, end) = id_ranges[i];
        let width = end - start;
        total = total + width + 1;
        i += 1;
    }
    total
}

/// The first empty line at or after `from`, or the number of lines where there is none.
pub open spec fn first_empty(all: Seq<Seq<u8>>, from: int) -> int
    decreases all.len() - from,
{
    if from >= all.len() {
        all.len() as int
    } else if from >= 0 && all[from].len() == 0 {
        from
    } else {
        first_empty(all, from + 1)
    }
}

/// The range that a line with one hyphen writes: two decimal numbers around the hyphen.
pub open spec fn line_range(line: Seq<u8>) -> Option<(u64, u64)> {
    let parts = fields(line, Separator::Dash);
    if parts.len() == 2 {
        match (number_u64(parts[0]), number_u64(parts[1])) {
            (Some(start), Some(end)) => Some((start, end)),
            _ => None,
        }
    } else {
        None
    }
}

/// The ranges of the first `upto` lines. Lines without a hyphen are passed over. There are
/// no ranges where a line with a hyphen writes no range.
pub open spec fn ranges_of(all: Seq<Seq<u8>>, upto: int) -> Option<Seq<(u64, u64)>>
    decreases upto,
{
    if upto <= 0 {
        Some(Seq::empty())
    } else {
        match ranges_of(all, upto - 1) {
            None => None,
            Some(before) => if fields(all[upto - 1], Separator::Dash).len() < 2 {
                Some(before)
            } else {
                match line_range(all[upto - 1]) {
                    Some(range) => Some(before.push(range)),
                    None => None,
                }
            },
        }
    }
}

/// The ids of the lines from `from` up to `upto - 1`. Lines that write no number are passed
/// over.
pub open spec fn ids_of(all: Seq<Seq<u8>>, from: int, upto: int) -> Seq<u64>
    decreases upto - from,
{
    if upto <= from {
        Seq::empty()
    } else {
        match number_u64(all[upto - 1]) {
            Some(id) => ids_of(all, from, upto - 1).push(id),
            None => ids_of(all, from, upto - 1),
        }
    }
}

/// Once a line writes no range, none come of the list.
pub proof fn lemma_ranges_fail(all: Seq<Seq<u8>>, upto: int, end: int)
    requires
        0 <= upto <= end,
        ranges_of(all, upto) is None,
    ensures
        ranges_of(all, end) is None,
    decreases end - upto,
{
    if upto < end {
        lemma_ranges_fail(all, upto, end - 1);
    }
}

/// `first_empty` finds an empty line, none being before it.
pub proof fn lemma_first_empty(all: Seq<Seq<u8>>, from: int)
    requires
        0 <= from,
    ensures
        from <= first_empty(all, from) || first_empty(all, from) == all.len(),
        first_empty(all, from) <= all.len(),
        first_empty(all, from) < all.len() ==> all[first_empty(all, from)].len() == 0,
    decreases all.len() - from,
{
    if from < all.len() && all[from].len() != 0 {
        lemma_first_empty(all, from + 1);
    }
}

/// Reads the two blocks of the text: the ranges, one per line and merged, and after an
/// empty line the ids, one per line.
///
/// `None` where the text has no empty line, or where a line of the first block has a hyphen
/// and does not write a range.
pub fn parse_puzzle_input(input: &str) -> (r: Option<(Vec<(u64, u64)>, Vec<u64>)>)
    ensures
        ({
            let all = lines(input.spec_bytes());
            let gap = first_empty(all, 0);
            match r {
                Some((id_ranges, ids)) => {
                    &&& gap < all.len()
                    &&& ranges_of(all, gap) is Some
                    &&& is_merge_of(id_ranges@, ranges_of(all, gap).unwrap())
                    &&& separated(id_ranges@)
                    &&& ids@ == ids_of(all, gap + 1, all.len() as int)
                },
                None => gap >= all.len() || ranges_of(all, gap) is None,
            }
        }),
{
    let rows = split_lines(input.as_bytes());
    let ghost all = lines(input.spec_bytes());
    let mut gap: usize = 0;
    while gap < rows.len() && rows[gap].len() != 0
        invariant
            gap <= rows.len(),
            all == views(rows@),
            first_empty(all, 0) == first_empty(all, gap as int),
        decreases rows.len() - gap,
    {
        assert(all[gap as int] == rows@[gap as int]@);
        gap += 1;
    }
    proof {
        if gap < rows.len() {
            assert(all[gap as int] == rows@[gap as int]@);
        }
    }
    if gap >= rows.len() {
        return None;
    }
    let mut found: Vec<(u64, u64)> = Vec::new();
    let mut i: usize = 0;
    while i < gap
        invariant
            i <= gap < rows.len(),
            all == views(rows@),
            all == lines(input.spec_bytes()),
            gap == first_empty(all, 0),
            ranges_of(all, i as int) == Some(found@),
        decreases gap - i,
    {
        assert(all[i as int] == rows@[i as int]@);
        let parts = split_fields(rows[i].as_slice(), Separator::Dash);
        if parts.len() >= 2 {
            assert(views(parts@)[0] == parts@[0]@);
            assert(views(parts@)[1] == parts@[1]@);
            let range = if parts.len() == 2 {
                match parse_u64(parts[0].as_slice()) {
                    Some(start) => match parse_u64(parts[1].as_slice()) {
                        Some(end) => Some((start, end)),
                        None => None,
                    },
                    None => None,
                }
            } else {
                None
            };
            match range {
                Some(range) => found.push(range),
                None => {
                    proof {
                        lemma_ranges_fail(all, i + 1, gap as int);
                    }
                    return None;
                },
            }
        }
        i += 1;
    }
    let id_ranges = merge_intervals(found);
    let mut ids: Vec<u64> = Vec::new();
    let mut i: usize = gap + 1;
    while i < rows.len()
        invariant
            gap < i <= rows.len(),
            all == views(rows@),
            ids@ == ids_of(all, gap + 1, i as int),
        decreases rows.len() - i,
    {
        assert(all[i as int] == rows@[i as int]@);
        match parse_u64(rows[i].as_slice()) {
            Some(id) => ids.push(id),
            None => {},
        }
        i += 1;
    }
    Some((id_ranges, ids))
}

/// Tells whether no range ends before it starts.
pub fn check_ranges(id_ranges: &Vec<(u64, u64)>) -> (r: bool)
    ensures
        r == well_formed(id_ranges@),
{
    let mut i: usize = 0;
    while i < id_ranges.len()
        invariant
            i <= id_ranges.len(),
            forall|k: int| 0 <= k < i ==> (#[trigger] id_ranges@[k]).0 <= id_ranges@[k].1,
        decreases id_ranges.len() - i,
    {
        if id_ranges[i].0 > id_ranges[i].1 {
            return false;
        }
        i += 1;
    }
    true
}

} // verus!
