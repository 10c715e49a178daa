//! Banks of batteries: the greatest joltage that two, or twelve, batteries of
//! a bank give when their digits are read in the order in which they stand.

use crate::text::{lines, split_lines, views};
use vstd::prelude::*;
use vstd::string::StringSliceAdditionalSpecFns;

verus! {

/// The joltage of the battery that the byte `b` labels: the digit's value, and zero for
/// a byte that is no digit.
pub open spec fn rating(b: u8) -> nat {
    if 48 <= b <= 57 {
        (b - 48) as nat
    } else {
        0
    }
}

/// The joltage that the batteries at `i` and `j` give together.
pub open spec fn pair_joltage(bank: Seq<u8>, i: int, j: int) -> nat {
    10 * rating(bank[i]) + rating(bank[j])
}

/// Reads the joltage of one battery.
pub fn battery_rating(b: u8) -> (r: u64)
    ensures
        r == rating(b),
        r <= 9,
{
    if 48 <= b && b <= 57 {
        (b - 48) as u64
    } else {
        0
    }
}

/// `joltage` is the greatest that two batteries of the bank give, the first standing before
/// the second, and zero for a bank of one battery.
pub open spec fn is_best_pair(bank: Seq<u8>, joltage: nat) -> bool {
    &&& forall|i: int, j: int| 0 <= i < j < bank.len() ==> #[trigger] pair_joltage(bank, i, j) <= joltage
    &&& bank.len() >= 2 ==> exists|i: int, j: int|
        0 <= i < j < bank.len() && #[trigger] pair_joltage(bank, i, j) == joltage
    &&& bank.len() < 2 ==> joltage == 0
}

/// A bank has one greatest joltage of two batteries.
pub proof fn lemma_best_pair_is_unique(bank: Seq<u8>, first: nat, second: nat)
    requires
        is_best_pair(bank, first),
        is_best_pair(bank, second),
    ensures
        first == second,
{
}

/// The greatest joltage that two batteries of the bank give, the first standing before the
/// second. A battery whose label is no digit gives nothing. A bank of one battery gives zero.
pub fn max_joltage_twopasses_part1(bank: &[u8]) -> (r: u64)
    requires
        bank@.len() > 0,
    ensures
        is_best_pair(bank@, r as nat),
        r <= 99,
{
    let bytes = bank;
    let n = bytes.len();
    if n < 2 {
        return 0;
    }
    let mut start_pos: usize = 0;
    let mut first_digit: u64 = battery_rating(bytes[0]);
    let mut i: usize = 1;
    while i < n - 1
        invariant
            1 <= i <= n - 1,
            n == bytes@.len(),
            start_pos < i,
            first_digit == rating(bytes@[start_pos as int]),
            forall|k: int| 0 <= k < i ==> rating(#[trigger] bytes@[k]) <= first_digit,
            forall|k: int| 0 <= k < start_pos ==> rating(#[trigger] bytes@[k]) < first_digit,
        decreases n - 1 - i,
    {
        let d = battery_rating(bytes[i]);
        if d > first_digit {
            first_digit = d;
            start_pos = i;
        }
        i += 1;
    }
    let mut second_pos: usize = start_pos + 1;
    let mut second_digit: u64 = battery_rating(bytes[start_pos + 1]);
    let mut j: usize = start_pos + 2;
    while j < n
        invariant
            start_pos + 2 <= j <= n,
            n == bytes@.len(),
            start_pos < second_pos < j,
            second_digit == rating(bytes@[second_pos as int]),
            forall|k: int| start_pos < k < j ==> rating(#[trigger] bytes@[k]) <= second_digit,
        decreases n - j,
    {
        let d = battery_rating(bytes[j]);
        if d > second_digit {
            second_digit = d;
            second_pos = j;
        }
        j += 1;
    }
    let r = first_digit * 10 + second_digit;
    proof {
        assert(pair_joltage(bytes@, start_pos as int, second_pos as int) == r);
        assert forall|a: int, b: int| 0 <= a < b < n implies #[trigger] pair_joltage(bytes@, a, b)
            <= r by {
            assert(rating(bytes@[a]) <= first_digit);
            assert(rating(bytes@[b]) <= 9);
            if rating(bytes@[a]) == first_digit {
                assert(start_pos <= a);
                assert(rating(bytes@[b]) <= second_digit);
            }
        }
    }
    r
}

/// The number of batteries that are switched on in the second part.
pub const NUM_BATTERIES: usize = 12;

/// The joltages of the batteries of a bank: the values of its digits, in order.
pub open spec fn ratings(bank: Seq<u8>) -> Seq<u8>
    decreases bank.len(),
{
    if bank.len() == 0 {
        Seq::empty()
    } else if 48 <= bank.last() <= 57 {
        ratings(bank.drop_last()).push((bank.last() - 48) as u8)
    } else {
        ratings(bank.drop_last())
    }
}

/// The place of the first greatest rating among those from `lo` up to `hi - 1`.
pub open spec fn first_max(ratings: Seq<u8>, lo: int, hi: int) -> int
    decreases hi - lo,
{
    if hi - lo <= 1 {
        lo
    } else {
        let before = first_max(ratings, lo, hi - 1);
        if ratings[hi - 1] > ratings[before] {
            hi - 1
        } else {
            before
        }
    }
}

/// The number that is read when `count` more batteries are picked from `start` on, each
/// being the first greatest that leaves enough batteries for the picks to come, and their
/// ratings are written behind the digits of `so_far`.
pub open spec fn greedy_pick(ratings: Seq<u8>, start: int, count: nat, so_far: nat) -> nat
    decreases count,
{
    if count == 0 {
        so_far
    } else {
        let at = first_max(ratings, start, ratings.len() - (count - 1));
        greedy_pick(ratings, at + 1, (count - 1) as nat, so_far * 10 + ratings[at] as nat)
    }
}

/// The places, in the order of the picks, of the batteries that [`greedy_pick`] picks.
pub open spec fn greedy_places(ratings: Seq<u8>, start: int, count: nat) -> Seq<int>
    decreases count,
{
    if count == 0 {
        Seq::empty()
    } else {
        let at = first_max(ratings, start, ratings.len() - (count - 1));
        seq![at] + greedy_places(ratings, at + 1, (count - 1) as nat)
    }
}

/// `picks` lists places of the bank from `start` on, in ascending order.
pub open spec fn is_selection(ratings: Seq<u8>, picks: Seq<int>, start: int) -> bool {
    &&& forall|i: int| 0 <= i < picks.len() ==> start <= #[trigger] picks[i] < ratings.len()
    &&& forall|i: int, j: int| 0 <= i < j < picks.len() ==> picks[i] < picks[j]
}

/// The number that is read when the ratings at the places of `picks` are written behind
/// the digits of `so_far`.
pub open spec fn number_read(ratings: Seq<u8>, picks: Seq<int>, so_far: nat) -> nat
    decreases picks.len(),
{
    if picks.len() == 0 {
        so_far
    } else {
        number_read(ratings, picks.skip(1), so_far * 10 + ratings[picks[0]] as nat)
    }
}

/// Every rating is a digit's value.
pub open spec fn all_ratings(ratings: Seq<u8>) -> bool {
    forall|i: int| 0 <= i < ratings.len() ==> #[trigger] ratings[i] <= 9
}

/// `joltage` is the greatest number that `count` batteries of the bank give when their
/// ratings are read in the order in which they stand.
pub open spec fn is_best_selection(ratings: Seq<u8>, count: nat, joltage: nat) -> bool {
    &&& exists|picks: Seq<int>|
        is_selection(ratings, picks, 0) && picks.len() == count && #[trigger] number_read(
            ratings,
            picks,
            0,
        ) == joltage
    &&& forall|picks: Seq<int>|
        is_selection(ratings, picks, 0) && picks.len() == count ==> #[trigger] number_read(
            ratings,
            picks,
            0,
        ) <= joltage
}

/// The first greatest rating of a range is in the range, no rating of the range is greater
/// and every rating before it is smaller.
pub proof fn lemma_first_max(ratings: Seq<u8>, lo: int, hi: int)
    requires
        lo < hi,
    ensures
        lo <= first_max(ratings, lo, hi) < hi,
        forall|i: int| lo <= i < hi ==> #[trigger] ratings[i] <= ratings[first_max(ratings, lo, hi)],
        forall|i: int|
            lo <= i < first_max(ratings, lo, hi) ==> #[trigger] ratings[i] < ratings[first_max(
                ratings,
                lo,
                hi,
            )],
    decreases hi - lo,
{
    if hi - lo > 1 {
        lemma_first_max(ratings, lo, hi - 1);
    }
}

/// What is read behind `so_far` starts with the digits of `so_far`.
pub proof fn lemma_number_read_bounds(ratings: Seq<u8>, picks: Seq<int>, start: int, so_far: nat)
    requires
        all_ratings(ratings),
        0 <= start,
        is_selection(ratings, picks, start),
    ensures
        so_far * pow10(picks.len()) <= number_read(ratings, picks, so_far) < (so_far + 1) * pow10(
            picks.len(),
        ),
    decreases picks.len(),
{
    if picks.len() > 0 {
        let rest = picks.skip(1);
        let next = so_far * 10 + ratings[picks[0]] as nat;
        assert(ratings[picks[0]] <= 9);
        assert forall|i: int| 0 <= i < rest.len() implies start <= #[trigger] rest[i]
            < ratings.len() by {
            assert(rest[i] == picks[i + 1]);
        }
        assert forall|i: int, j: int| 0 <= i < j < rest.len() implies rest[i] < rest[j] by {
            assert(rest[i] == picks[i + 1]);
            assert(rest[j] == picks[j + 1]);
        }
        lemma_number_read_bounds(ratings, rest, start, next);
        let p = pow10(rest.len());
        assert(pow10(picks.len()) == 10 * p);
        assert(so_far * (10 * p) <= next * p) by (nonlinear_arith)
            requires
                next >= so_far * 10,
                p >= 0,
        ;
        assert((next + 1) * p <= (so_far + 1) * (10 * p)) by (nonlinear_arith)
            requires
                next + 1 <= (so_far + 1) * 10,
                p >= 0,
        ;
        let q = pow10(picks.len());
        assert(so_far * q == so_far * (10 * p) && (so_far + 1) * q == (so_far + 1) * (10 * p))
            by (nonlinear_arith)
            requires
                q == 10 * p,
        ;
    } else {
        let q = pow10(picks.len());
        assert(so_far * q == so_far && (so_far + 1) * q == so_far + 1) by (nonlinear_arith)
            requires
                q == 1,
        ;
    }
}

/// The places that the greedy picks take are a selection, and the number read at them is
/// the number that the greedy picks give.
pub proof fn lemma_greedy_is_read(ratings: Seq<u8>, start: int, count: nat, so_far: nat)
    requires
        0 <= start,
        start + count <= ratings.len(),
    ensures
        is_selection(ratings, greedy_places(ratings, start, count), start),
        greedy_places(ratings, start, count).len() == count,
        number_read(ratings, greedy_places(ratings, start, count), so_far) == greedy_pick(
            ratings,
            start,
            count,
            so_far,
        ),
    decreases count,
{
    if count > 0 {
        let at = first_max(ratings, start, ratings.len() - (count - 1));
        lemma_first_max(ratings, start, ratings.len() - (count - 1));
        let rest = greedy_places(ratings, at + 1, (count - 1) as nat);
        let picks = greedy_places(ratings, start, count);
        lemma_greedy_is_read(ratings, at + 1, (count - 1) as nat, so_far * 10 + ratings[at] as nat);
        assert(picks.skip(1) == rest);
        assert forall|i: int| 0 <= i < picks.len() implies start <= #[trigger] picks[i]
            < ratings.len() by {
            if i > 0 {
                assert(picks[i] == rest[i - 1]);
            }
        }
        assert forall|i: int, j: int| 0 <= i < j < picks.len() implies picks[i] < picks[j] by {
            assert(picks[j] == rest[j - 1]);
            if i > 0 {
                assert(picks[i] == rest[i - 1]);
            }
        }
    }
}

/// No selection of as many batteries gives a greater number than the greedy picks.
pub proof fn lemma_greedy_is_greatest(ratings: Seq<u8>, start: int, picks: Seq<int>, so_far: nat)
    requires
        all_ratings(ratings),
        0 <= start,
        is_selection(ratings, picks, start),
    ensures
        number_read(ratings, picks, so_far) <= greedy_pick(ratings, start, picks.len(), so_far),
    decreases picks.len(),
{
    let count = picks.len();
    if count > 0 {
        let rest = picks.skip(1);
        assert forall|i: int| 0 <= i < rest.len() implies picks[0] + 1 <= #[trigger] rest[i]
            < ratings.len() by {
            assert(rest[i] == picks[i + 1]);
        }
        assert forall|i: int, j: int| 0 <= i < j < rest.len() implies rest[i] < rest[j] by {
            assert(rest[i] == picks[i + 1]);
            assert(rest[j] == picks[j + 1]);
        }
        lemma_selection_leaves_room(ratings, picks, start, 0);
        let hi = ratings.len() - (count - 1);
        let at = first_max(ratings, start, hi);
        lemma_first_max(ratings, start, hi);
        assert(ratings[picks[0]] <= ratings[at]);
        let mine = so_far * 10 + ratings[picks[0]] as nat;
        let best = so_far * 10 + ratings[at] as nat;
        if ratings[picks[0]] == ratings[at] {
            assert(picks[0] >= at);
            assert forall|i: int| 0 <= i < rest.len() implies at + 1 <= #[trigger] rest[i]
                < ratings.len() by {
                assert(rest[i] == picks[i + 1]);
            }
            lemma_greedy_is_greatest(ratings, at + 1, rest, best);
        } else {
            lemma_number_read_bounds(ratings, rest, picks[0] + 1, mine);
            lemma_greedy_is_read(ratings, at + 1, (count - 1) as nat, best);
            lemma_number_read_bounds(
                ratings,
                greedy_places(ratings, at + 1, (count - 1) as nat),
                at + 1,
                best,
            );
            let p = pow10(rest.len());
            assert((mine + 1) * p <= best * p) by (nonlinear_arith)
                requires
                    mine + 1 <= best,
                    p >= 0,
            ;
        }
    }
}

/// A selection leaves, behind each of its places, room for the places that follow.
pub proof fn lemma_selection_leaves_room(ratings: Seq<u8>, picks: Seq<int>, start: int, i: int)
    requires
        is_selection(ratings, picks, start),
        0 <= i < picks.len(),
    ensures
        picks[i] + (picks.len() - i) <= ratings.len(),
    decreases picks.len() - i,
{
    if i + 1 < picks.len() {
        lemma_selection_leaves_room(ratings, picks, start, i + 1);
    }
}

/// What the greedy picks give is the greatest number that as many batteries give.
pub proof fn lemma_greedy_is_best(ratings: Seq<u8>, count: nat)
    requires
        all_ratings(ratings),
        count <= ratings.len(),
    ensures
        is_best_selection(ratings, count, greedy_pick(ratings, 0, count, 0)),
{
    lemma_greedy_is_read(ratings, 0, count, 0);
    assert forall|picks: Seq<int>|
        is_selection(ratings, picks, 0) && picks.len() == count implies #[trigger] number_read(
        ratings,
        picks,
        0,
    ) <= greedy_pick(ratings, 0, count, 0) by {
        lemma_greedy_is_greatest(ratings, 0, picks, 0);
    }
}

/// Ten to the power of `n`.
pub open spec fn pow10(n: nat) -> nat
    decreases n,
{
    if n == 0 {
        1
    } else {
        10 * pow10((n - 1) as nat)
    }
}

/// Ten to the power of twelve at most is a million millions.
pub proof fn lemma_pow10_bound(n: nat)
    requires
        n <= 12,
    ensures
        pow10(n) <= 1_000_000_000_000,
{
    reveal_with_fuel(pow10, 13);
}

/// Lists the joltages of the batteries of a bank.
pub fn read_ratings(bank: &[u8]) -> (r: Vec<u8>)
    ensures
        r@ == ratings(bank@),
{
    let mut digits: Vec<u8> = Vec::new();
    let mut i: usize = 0;
    while i < bank.len()
        invariant
            i <= bank.len(),
            digits@ == ratings(bank@.take(i as int)),
        decreases bank.len() - i,
    {
        proof {
            assert(bank@.take(i + 1).drop_last() == bank@.take(i as int));
        }
        let b = bank[i];
        if 48 <= b && b <= 57 {
            digits.push(b - 48);
        }
        i += 1;
    }
    proof {
        assert(bank@.take(i as int) == bank@);
    }
    digits
}

/// The greatest number that twelve batteries of the bank give when their ratings are read
/// in the order in which they stand. Each battery is picked as the first greatest that
/// leaves enough batteries for the picks to come.
pub fn max_joltage_part2(bank: &[u8]) -> (r: u64)
    requires
        ratings(bank@).len() >= NUM_BATTERIES,
    ensures
        r == greedy_pick(ratings(bank@), 0, NUM_BATTERIES as nat, 0),
        is_best_selection(ratings(bank@), NUM_BATTERIES as nat, r as nat),
        r < 1_000_000_000_000,
{
    let digits = read_ratings(bank);
    let mut start: usize = 0;
    let mut joltage: u64 = 0;
    let mut end_pad: usize = NUM_BATTERIES;
    while end_pad > 0
        invariant
            end_pad <= NUM_BATTERIES,
            digits@ == ratings(bank@),
            start + end_pad <= digits@.len(),
            joltage < pow10((NUM_BATTERIES - end_pad) as nat),
            greedy_pick(digits@, 0, NUM_BATTERIES as nat, 0) == greedy_pick(
                digits@,
                start as int,
                end_pad as nat,
                joltage as nat,
            ),
        decreases end_pad,
    {
        end_pad -= 1;
        let end = digits.len() - end_pad;
        let mut at: usize = start;
        let mut i: usize = start + 1;
        while i < end
            invariant
                start < i <= end <= digits@.len(),
                start <= at < i,
                at == first_max(digits@, start as int, i as int),
            decreases end - i,
        {
            if digits[i] > digits[at] {
                at = i;
            }
            i += 1;
        }
        proof {
            lemma_pow10_bound((NUM_BATTERIES - end_pad - 1) as nat);
            lemma_pow10_bound((NUM_BATTERIES - end_pad) as nat);
            assert(digits@[at as int] <= 9) by {
                lemma_ratings_are_digits(bank@, at as int);
            }
        }
        joltage = joltage * 10 + digits[at] as u64;
        start = at + 1;
    }
    proof {
        lemma_pow10_bound(NUM_BATTERIES as nat);
        assert forall|i: int| 0 <= i < digits@.len() implies #[trigger] digits@[i] <= 9 by {
            lemma_ratings_are_digits(bank@, i);
        }
        lemma_greedy_is_best(digits@, NUM_BATTERIES as nat);
    }
    joltage
}

/// Every rating is a digit's value.
pub proof fn lemma_ratings_are_digits(bank: Seq<u8>, i: int)
    requires
        0 <= i < ratings(bank).len(),
    ensures
        ratings(bank)[i] <= 9,
    decreases bank.len(),
{
    if bank.len() > 0 {
        if i < ratings(bank.drop_last()).len() {
            lemma_ratings_are_digits(bank.drop_last(), i);
        }
    }
}

/// The sum of the first `upto` numbers.
pub open spec fn sum_of(values: Seq<nat>, upto: int) -> nat
    decreases upto,
{
    if upto <= 0 {
        0
    } else {
        sum_of(values, upto - 1) + values[upto - 1]
    }
}

/// Some bank among the first `upto` has no battery at all.
pub open spec fn has_empty_bank(banks: Seq<Seq<u8>>, upto: int) -> bool {
    exists|i: int| 0 <= i < upto && (#[trigger] banks[i]).len() == 0
}

/// Some bank among the first `upto` has fewer batteries than are to be switched on.
pub open spec fn has_short_bank(banks: Seq<Seq<u8>>, upto: int) -> bool {
    exists|i: int| 0 <= i < upto && ratings(#[trigger] banks[i]).len() < NUM_BATTERIES
}

/// The sum, over the first `upto` banks, of what twelve batteries give.
pub open spec fn twelve_total(banks: Seq<Seq<u8>>, upto: int) -> nat
    decreases upto,
{
    if upto <= 0 {
        0
    } else {
        twelve_total(banks, upto - 1) + greedy_pick(
            ratings(banks[upto - 1]),
            0,
            NUM_BATTERIES as nat,
            0,
        )
    }
}

/// The sum, over the banks of the text, one per line, of the greatest joltage that two
/// batteries of a bank give. `None` where a line is empty.
pub fn solution_part1(input: &str) -> (r: Option<u128>)
    ensures
        match r {
            Some(total) => exists|values: Seq<nat>|
                {
                    &&& values.len() == lines(input.spec_bytes()).len()
                    &&& forall|i: int|
                        0 <= i < values.len() ==> is_best_pair(
                            lines(input.spec_bytes())[i],
                            #[trigger] values[i],
                        )
                    &&& total == #[trigger] sum_of(values, values.len() as int)
                },
            None => has_empty_bank(
                lines(input.spec_bytes()),
                lines(input.spec_bytes()).len() as int,
            ),
        },
        r is Some ==> !has_empty_bank(lines(input.spec_bytes()), lines(input.spec_bytes()).len() as int),
{
    let banks = split_lines(input.as_bytes());
    let ghost all = lines(input.spec_bytes());
    let ghost mut values: Seq<nat> = Seq::empty();
    let mut total: u128 = 0;
    let mut i: usize = 0;
    while i < banks.len()
        invariant
            i <= banks.len(),
            all == views(banks@),
            all == lines(input.spec_bytes()),
            values.len() == i,
            forall|k: int| 0 <= k < i ==> is_best_pair(all[k], #[trigger] values[k]),
            total == sum_of(values, i as int),
            total <= i * 99,
            !has_empty_bank(all, i as int),
        decreases banks.len() - i,
    {
        assert(all[i as int] == banks@[i as int]@);
        if banks[i].len() == 0 {
            assert(all[i as int].len() == 0);
            return None;
        }
        let found = max_joltage_twopasses_part1(banks[i].as_slice());
        proof {
            let before = values;
            values = values.push(found as nat);
            lemma_sum_of_prefix(before, values, i as int);
        }
        total = total + found as u128;
        i += 1;
    }
    Some(total)
}

/// Lists that agree on their first `upto` numbers have the same sum up to there.
pub proof fn lemma_sum_of_prefix(first: Seq<nat>, second: Seq<nat>, upto: int)
    requires
        upto <= first.len(),
        upto <= second.len(),
        forall|i: int| 0 <= i < upto ==> first[i] == second[i],
    ensures
        sum_of(first, upto) == sum_of(second, upto),
    decreases upto,
{
    if upto > 0 {
        lemma_sum_of_prefix(first, second, upto - 1);
    }
}

/// The sum, over the banks of the text, one per line, of what twelve batteries of a bank
/// give. `None` where a bank has fewer than twelve batteries.
pub fn solution_part2(input: &str) -> (r: Option<u128>)
    ensures
        match r {
            Some(total) => total == twelve_total(
                lines(input.spec_bytes()),
                lines(input.spec_bytes()).len() as int,
            ),
            None => true,
        },
        r is None <==> has_short_bank(
            lines(input.spec_bytes()),
            lines(input.spec_bytes()).len() as int,
        ),
{
    let banks = split_lines(input.as_bytes());
    let ghost all = lines(input.spec_bytes());
    let mut total: u128 = 0;
    let mut i: usize = 0;
    while i < banks.len()
        invariant
            i <= banks.len(),
            all == views(banks@),
            all == lines(input.spec_bytes()),
            total == twelve_total(all, i as int),
            total <= i * 1_000_000_000_000,
            !has_short_bank(all, i as int),
        decreases banks.len() - i,
    {
        assert(all[i as int] == banks@[i as int]@);
        let digits = read_ratings(banks[i].as_slice());
        if digits.len() < NUM_BATTERIES {
            assert(ratings(all[i as int]).len() < NUM_BATTERIES);
            return None;
        }
        let found = max_joltage_part2(banks[i].as_slice());
        total = total + found as u128;
        i += 1;
    }
    Some(total)
}

} // verus!
