//! The dial of the safe: a lock with the positions 0 to 99 that is turned
//! left and right, and the count of the times it points at zero.

use crate::text::{lines, number_u64, parse_u64, split_lines, views};
use vstd::prelude::*;
use vstd::slice::slice_subrange;
use vstd::string::{StrSliceExecFns, StringSliceAdditionalSpecFns};

verus! {

/// Where the dial would stand after `turns` clicks from `position` if its scale did not wrap.
pub open spec fn turned(position: int, turns: int, left: bool) -> int {
    if left {
        position - turns
    } else {
        position + turns
    }
}

/// The number of clicks, among the `turns` clicks of a rotation that starts at `position`,
/// after which the dial points at zero.
pub open spec fn clicks_at_zero(position: int, turns: int, left: bool) -> nat
    decreases turns,
{
    if turns <= 0 {
        0
    } else {
        clicks_at_zero(position, turns - 1, left) + if turned(position, turns, left) % 100 == 0 {
            1nat
        } else {
            0nat
        }
    }
}

/// `direction` is the text `L`.
pub open spec fn is_left(direction: Seq<char>) -> bool {
    direction == seq!['L']
}

/// `direction` is the text `R`.
pub open spec fn is_right(direction: Seq<char>) -> bool {
    direction == seq!['R']
}

/// The clicks at zero of a rotation, in closed form.
pub proof fn lemma_clicks_at_zero(position: int, turns: int, left: bool)
    requires
        0 <= position < 100,
        0 <= turns,
    ensures
        !left ==> clicks_at_zero(position, turns, left) == (position + turns) / 100,
        left && position - turns > 0 ==> clicks_at_zero(position, turns, left) == 0,
        left && position - turns == 0 ==> clicks_at_zero(position, turns, left) == if turns > 0 {
            1nat
        } else {
            0nat
        },
        left && position - turns < 0 ==> clicks_at_zero(position, turns, left) == (turns
            - position) / 100 + if position != 0 {
            1nat
        } else {
            0nat
        },
    decreases turns,
{
    if turns > 0 {
        lemma_clicks_at_zero(position, turns - 1, left);
    }
}

/// Turns the dial and counts one more if it then points at zero.
///
/// Returns the new position, from 0 to 99, and the new count.
pub fn process_lock_part1(direction: &str, turns: i32, lock_position: i32, count: u64) -> (r: (
    i32,
    u64,
))
    requires
        is_left(direction@) || is_right(direction@),
        i32::MIN <= turned(lock_position as int, turns as int, is_left(direction@)) <= i32::MAX,
        count < u64::MAX,
    ensures
        r.0 == turned(lock_position as int, turns as int, is_left(direction@)) % 100,
        r.1 == count + if r.0 == 0 {
            1int
        } else {
            0int
        },
{
    let moved = if direction.get_char(0) == 'L' {
        lock_position - turns
    } else {
        lock_position + turns
    };
    let new_sum = match moved.checked_rem_euclid(100) {
        Some(p) => p,
        None => 0,
    };
    if new_sum == 0 {
        (new_sum, count + 1)
    } else {
        (new_sum, count)
    }
}

/// Turns the dial and counts every click of the rotation after which it points at zero.
///
/// Returns the new position, from 0 to 99, and the new count. A rotation of no click at all
/// that starts at zero counts as one.
pub fn process_lock_part2(direction: &str, turns: i32, lock_position: i32, count: u64) -> (r: (
    i32,
    u64,
))
    requires
        is_left(direction@) || is_right(direction@),
        0 <= lock_position < 100,
        0 <= turns,
        is_right(direction@) ==> lock_position + turns <= i32::MAX,
        count + turns / 100 + 1 <= u64::MAX,
    ensures
        r.0 == turned(lock_position as int, turns as int, is_left(direction@)) % 100,
        r.1 == count + if turns == 0 && lock_position == 0 {
            1nat
        } else {
            clicks_at_zero(lock_position as int, turns as int, is_left(direction@))
        },
{
    proof {
        lemma_clicks_at_zero(lock_position as int, turns as int, is_left(direction@));
    }
    let lock_val = if direction.get_char(0) == 'L' {
        lock_position - turns
    } else {
        lock_position + turns
    };
    let updated_count = if lock_val < 0 {
        let new_count = count + ((0 - lock_val) / 100) as u64;
        if lock_position != 0 {
            new_count + 1
        } else {
            new_count
        }
    } else if lock_val == 0 {
        count + 1
    } else if lock_val < 100 {
        count
    } else {
        count + (lock_val / 100) as u64
    };
    let lock_position = match lock_val.checked_rem_euclid(100) {
        Some(p) => p,
        None => 0,
    };
    (lock_position, updated_count)
}

/// Which count is kept.
#[derive(Debug, Clone, Copy, PartialEq, Eq, Structural)]
pub enum Part {
    /// The rotations after which the dial points at zero.
    One,
    /// The clicks after which the dial points at zero.
    Two,
}

/// The greatest count from which a rotation can still be counted.
pub const COUNT_LIMIT: u64 = 0xffff_ffff_7fff_ffff;

/// The rotation that a line writes: whether it goes left, and the number of clicks. A line
/// is `L` or `R` and then a decimal number that fits an `i32`.
pub open spec fn rotation(line: Seq<u8>) -> Option<(bool, i32)> {
    if line.len() >= 1 && (line[0] == 76 || line[0] == 82) {
        match number_u64(line.skip(1)) {
            Some(turns) => if turns <= i32::MAX {
                Some((line[0] == 76, turns as i32))
            } else {
                None
            },
            None => None,
        }
    } else {
        None
    }
}

/// The position and the count after one more rotation. There is none where a turn to the
/// right leaves the range of an `i32`, or where the count is beyond [`COUNT_LIMIT`].
pub open spec fn after_rotation(part: Part, state: (int, int), left: bool, turns: int) -> Option<
    (int, int),
> {
    if (!left && state.0 + turns > i32::MAX) || state.1 > COUNT_LIMIT {
        None
    } else {
        let position = turned(state.0, turns, left) % 100;
        Some(
            (
                position,
                state.1 + match part {
                    Part::One => if position == 0 {
                        1int
                    } else {
                        0int
                    },
                    Part::Two => if turns == 0 && state.0 == 0 {
                        1int
                    } else {
                        clicks_at_zero(state.0, turns, left) as int
                    },
                },
            ),
        )
    }
}

/// The position and the count after the rotations of the first `upto` lines, from the
/// position 50 and the count zero.
pub open spec fn dial_after(part: Part, rotations: Seq<Seq<u8>>, upto: int) -> Option<(int, int)>
    decreases upto,
{
    if upto <= 0 {
        Some((50int, 0int))
    } else {
        match (dial_after(part, rotations, upto - 1), rotation(rotations[upto - 1])) {
            (Some(state), Some((left, turns))) => after_rotation(part, state, left, turns as int),
            _ => None,
        }
    }
}

/// Once a rotation cannot be made, no count comes of the list.
pub proof fn lemma_dial_stuck(part: Part, rotations: Seq<Seq<u8>>, upto: int)
    requires
        0 <= upto <= rotations.len(),
        dial_after(part, rotations, upto) is None,
    ensures
        dial_after(part, rotations, rotations.len() as int) is None,
    decreases rotations.len() - upto,
{
    if upto < rotations.len() {
        lemma_dial_stuck(part, rotations, upto + 1);
    }
}

/// Reads the rotation that a line writes.
pub fn parse_rotation(line: &[u8]) -> (r: Option<(bool, i32)>)
    ensures
        r == rotation(line@),
{
    if line.len() < 1 || (line[0] != 76 && line[0] != 82) {
        return None;
    }
    assert(line@.skip(1) == line@.subrange(1, line@.len() as int));
    match parse_u64(slice_subrange(line, 1, line.len())) {
        Some(turns) => if turns <= 0x7fff_ffff {
            Some((line[0] == 76, turns as i32))
        } else {
            None
        },
        None => None,
    }
}

/// The count after the rotations that the text lists, one per line, are made from the
/// position 50.
///
/// `None` where a line writes no rotation, where a turn to the right leaves the range of an
/// `i32`, or where the count passes [`COUNT_LIMIT`].
pub fn solution(input: &str, part: Part) -> (r: Option<u64>)
    ensures
        r == match dial_after(
            part,
            lines(input.spec_bytes()),
            lines(input.spec_bytes()).len() as int,
        ) {
            Some(state) => Some(state.1 as u64),
            None => None,
        },
{
    let rotations = split_lines(input.as_bytes());
    let ghost all = lines(input.spec_bytes());
    let mut lock_position: i32 = 50;
    let mut count: u64 = 0;
    let mut i: usize = 0;
    while i < rotations.len()
        invariant
            i <= rotations.len(),
            all == views(rotations@),
            all == lines(input.spec_bytes()),
            0 <= lock_position < 100,
            dial_after(part, all, i as int) == Some((lock_position as int, count as int)),
        decreases rotations.len() - i,
    {
        assert(all[i as int] == rotations@[i as int]@);
        let (left, turns) = match parse_rotation(rotations[i].as_slice()) {
            Some(found) => found,
            None => {
                proof {
                    lemma_dial_stuck(part, all, i + 1);
                }
                return None;
            },
        };
        if (!left && turns > 0x7fff_ffff - lock_position) || count > COUNT_LIMIT {
            proof {
                lemma_dial_stuck(part, all, i + 1);
            }
            return None;
        }
        let direction = if left {
            "L"
        } else {
            "R"
        };
        proof {
            reveal_strlit("L");
            reveal_strlit("R");
            assert("L"@ =~= seq!['L']);
            assert("R"@ =~= seq!['R']);
            assert(seq!['L'][0] != seq!['R'][0]);
            assert(is_left(direction@) == left);
            assert(is_right(direction@) == !left);
        }
        let next = match part {
            Part::One => process_lock_part1(direction, turns, lock_position, count),
            Part::Two => process_lock_part2(direction, turns, lock_position, count),
        };
        lock_position = next.0;
        count = next.1;
        i += 1;
    }
    Some(count)
}

} // verus!
