//! Product ids whose decimal form is a block of digits written twice, or
//! written twice or more.

use crate::text::{
    fields, number_u64, parse_u64, split_fields, trim, trimmed, views, Separator,
};
use vstd::prelude::*;
use vstd::string::StringSliceAdditionalSpecFns;

verus! {

/// The decimal digits of `n`, the most significant first and each as its value.
pub open spec fn decimal(n: nat) -> Seq<u8>
    decreases n,
{
    if n < 10 {
        seq![n as u8]
    } else {
        decimal(n / 10).push((n % 10) as u8)
    }
}

/// The two halves of `digits` are the same.
pub open spec fn is_doubled(digits: Seq<u8>) -> bool {
    digits.len() % 2 == 0 && digits.subrange(0, digits.len() as int / 2) == digits.subrange(
        digits.len() as int / 2,
        digits.len() as int,
    )
}

/// `digits` is its first `period` digits written again and again: it is a whole number of
/// blocks long and every digit equals the one a block before.
pub open spec fn repeats_with(digits: Seq<u8>, period: int) -> bool {
    &&& 1 <= period
    &&& digits.len() % (period as nat) == 0
    &&& forall|i: int| period <= i < digits.len() ==> digits[i] == #[trigger] digits[i - period]
}

/// `digits` is some block written twice or more.
pub open spec fn is_repeated(digits: Seq<u8>) -> bool {
    exists|period: int| 1 <= period <= digits.len() / 2 && #[trigger] repeats_with(digits, period)
}

/// Writes `id` in decimal, the most significant digit first.
pub fn decimal_digits(id: u64) -> (r: Vec<u8>)
    ensures
        r@ == decimal(id as nat),
{
    let mut rev: Vec<u8> = Vec::new();
    let mut rest = id;
    while rest >= 10
        invariant
            decimal(id as nat) == decimal(rest as nat) + rev@.reverse(),
        decreases rest,
    {
        let ghost before = rev@;
        rev.push((rest % 10) as u8);
        proof {
            assert(rev@.reverse() == seq![(rest % 10) as u8] + before.reverse());
            assert(decimal(rest as nat) == decimal((rest / 10) as nat).push((rest % 10) as u8));
            assert(decimal((rest / 10) as nat).push((rest % 10) as u8) + before.reverse()
                == decimal((rest / 10) as nat) + rev@.reverse());
        }
        rest = rest / 10;
    }
    let ghost before = rev@;
    rev.push(rest as u8);
    proof {
        assert(rev@.reverse() == seq![rest as u8] + before.reverse());
        assert(decimal(id as nat) == rev@.reverse());
    }
    let mut out: Vec<u8> = Vec::new();
    let mut i: usize = rev.len();
    while i > 0
        invariant
            i <= rev.len(),
            out@.len() == rev.len() - i,
            forall|k: int| 0 <= k < out@.len() ==> out@[k] == rev@[rev.len() - 1 - k],
        decreases i,
    {
        i -= 1;
        out.push(rev[i]);
    }
    assert(out@ == rev@.reverse());
    out
}

/// Tells whether the decimal form of `id` is a block of digits written twice.
pub fn check_invalid_id_part1(id: u64) -> (r: bool)
    ensures
        r == is_doubled(decimal(id as nat)),
{
    let digits = decimal_digits(id);
    let n = digits.len();
    if n % 2 == 1 {
        return false;
    }
    let midpoint = n / 2;
    let mut i: usize = 0;
    while i < midpoint
        invariant
            i <= midpoint,
            midpoint == n / 2,
            n == digits@.len(),
            digits@ == decimal(id as nat),
            n % 2 == 0,
            forall|k: int| 0 <= k < i ==> #[trigger] digits@[k] == digits@[midpoint + k],
        decreases midpoint - i,
    {
        if digits[i] != digits[midpoint + i] {
            proof {
                let first = digits@.subrange(0, midpoint as int);
                let second = digits@.subrange(midpoint as int, n as int);
                assert(first[i as int] != second[i as int]);
            }
            return false;
        }
        i += 1;
    }
    proof {
        assert(digits@.subrange(0, midpoint as int) =~= digits@.subrange(
            midpoint as int,
            n as int,
        ));
    }
    true
}

/// Tells whether the decimal form of `id` is a block of digits written twice or more.
pub fn check_invalid_id_part2(id: u64) -> (r: bool)
    ensures
        r == is_repeated(decimal(id as nat)),
{
    let digits = decimal_digits(id);
    let n = digits.len();
    let mut test_len: usize = 1;
    while test_len < n / 2 + 1
        invariant
            1 <= test_len <= n / 2 + 1,
            n == digits@.len(),
            digits@ == decimal(id as nat),
            forall|p: int| 1 <= p < test_len ==> !repeats_with(digits@, p),
        decreases n / 2 + 1 - test_len,
    {
        if n % test_len == 0 {
            let mut i: usize = test_len;
            let mut same = true;
            while i < n
                invariant
                    test_len <= i <= n,
                    n == digits@.len(),
                    n % test_len == 0,
                    same ==> forall|k: int|
                        test_len <= k < i ==> digits@[k] == #[trigger] digits@[k - test_len],
                    !same ==> !repeats_with(digits@, test_len as int),
                decreases n - i,
            {
                if digits[i] != digits[i - test_len] {
                    same = false;
                }
                i += 1;
            }
            if same {
                assert(repeats_with(digits@, test_len as int));
                return true;
            }
        }
        test_len += 1;
    }
    false
}

/// Which ids are looked for.
#[derive(Debug, Clone, Copy, PartialEq, Eq, Structural)]
pub enum Part {
    /// Those that are a block of digits written twice.
    One,
    /// Those that are a block of digits written twice or more.
    Two,
}

/// Whether `id` is one of the ids that are looked for.
pub open spec fn is_invalid(part: Part, id: nat) -> bool {
    match part {
        Part::One => is_doubled(decimal(id)),
        Part::Two => is_repeated(decimal(id)),
    }
}

/// The sum of the ids from `lo` to `hi`, both included, that are looked for.
pub open spec fn invalid_sum(part: Part, lo: int, hi: int) -> nat
    decreases hi - lo + 1,
{
    if hi < lo || hi < 0 {
        0
    } else {
        invalid_sum(part, lo, hi - 1) + if is_invalid(part, hi as nat) {
            hi as nat
        } else {
            0nat
        }
    }
}

/// The range that a piece of the list writes: two decimal numbers with a hyphen between
/// them, blanks around the piece being left out. What follows a second hyphen is not read.
pub open spec fn range_of(piece: Seq<u8>) -> Option<(u64, u64)> {
    let parts = fields(trimmed(piece), Separator::Dash);
    if parts.len() >= 2 {
        match (number_u64(parts[0]), number_u64(parts[1])) {
            (Some(start), Some(end)) => Some((start, end)),
            _ => None,
        }
    } else {
        None
    }
}

/// The sum of the ids that are looked for in the ranges of the first `upto` pieces. A piece
/// that writes no range adds nothing.
pub open spec fn ranges_sum(part: Part, pieces: Seq<Seq<u8>>, upto: int) -> nat
    decreases upto,
{
    if upto <= 0 {
        0
    } else {
        ranges_sum(part, pieces, upto - 1) + match range_of(pieces[upto - 1]) {
            Some((start, end)) => invalid_sum(part, start as int, end as int),
            None => 0nat,
        }
    }
}

/// More pieces give no smaller a sum.
pub proof fn lemma_ranges_sum_grows(part: Part, pieces: Seq<Seq<u8>>, upto: int)
    requires
        0 <= upto <= pieces.len(),
    ensures
        ranges_sum(part, pieces, upto) <= ranges_sum(part, pieces, pieces.len() as int),
    decreases pieces.len() - upto,
{
    if upto < pieces.len() {
        lemma_ranges_sum_grows(part, pieces, upto + 1);
    }
}

/// A longer range gives no smaller a sum.
pub proof fn lemma_invalid_sum_grows(part: Part, lo: int, mid: int, hi: int)
    requires
        mid <= hi,
    ensures
        invalid_sum(part, lo, mid) <= invalid_sum(part, lo, hi),
    decreases hi - mid,
{
    if mid < hi {
        lemma_invalid_sum_grows(part, lo, mid, hi - 1);
    }
}

/// Reads the range that a piece of the list writes.
pub fn parse_range(piece: &[u8]) -> (r: Option<(u64, u64)>)
    ensures
        r == range_of(piece@),
{
    let inner = trim(piece);
    let parts = split_fields(inner.as_slice(), Separator::Dash);
    if parts.len() < 2 {
        return None;
    }
    assert(views(parts@)[0] == parts@[0]@);
    assert(views(parts@)[1] == parts@[1]@);
    match parse_u64(parts[0].as_slice()) {
        Some(start) => match parse_u64(parts[1].as_slice()) {
            Some(end) => Some((start, end)),
            None => None,
        },
        None => None,
    }
}

/// Tells whether `id` is one of the ids that are looked for.
pub fn check_invalid_id(part: Part, id: u64) -> (r: bool)
    ensures
        r == is_invalid(part, id as nat),
{
    match part {
        Part::One => check_invalid_id_part1(id),
        Part::Two => check_invalid_id_part2(id),
    }
}

/// The sum of the ids that are looked for in the ranges that the text lists with commas
/// between them. `None` where the sum does not fit a `u64`.
pub fn solution(input: &str, part: Part) -> (r: Option<u64>)
    ensures
        r == if ranges_sum(
            part,
            fields(input.spec_bytes(), Separator::Comma),
            fields(input.spec_bytes(), Separator::Comma).len() as int,
        ) <= u64::MAX {
            Some(
                ranges_sum(
                    part,
                    fields(input.spec_bytes(), Separator::Comma),
                    fields(input.spec_bytes(), Separator::Comma).len() as int,
                ) as u64,
            )
        } else {
            None
        },
{
    let pieces = split_fields(input.as_bytes(), Separator::Comma);
    let ghost all = fields(input.spec_bytes(), Separator::Comma);
    let mut total: u64 = 0;
    let mut i: usize = 0;
    while i < pieces.len()
        invariant
            i <= pieces.len(),
            all == views(pieces@),
            all == fields(input.spec_bytes(), Separator::Comma),
            total == ranges_sum(part, all, i as int),
        decreases pieces.len() - i,
    {
        assert(all[i as int] == pieces@[i as int]@);
        proof {
            lemma_ranges_sum_grows(part, all, i + 1);
        }
        match parse_range(pieces[i].as_slice()) {
            None => {},
            Some((start, end)) => {
                if start <= end {
                    let ghost before = total;
                    let mut id = start;
                    let mut done = false;
                    if start > 0 {
                        assert(invalid_sum(part, start as int, start - 1) == 0);
                    }
                    while !done
                        invariant
                            start <= id <= end,
                            all == fields(input.spec_bytes(), Separator::Comma),
                            !done ==> total == before + invalid_sum(part, start as int, id - 1),
                            done ==> total == before + invalid_sum(part, start as int, end as int),
                            before + invalid_sum(part, start as int, end as int) <= ranges_sum(
                                part,
                                all,
                                all.len() as int,
                            ),
                        decreases end - id, !done as int,
                    {
                        proof {
                            lemma_invalid_sum_grows(part, start as int, id as int, end as int);
                        }
                        if check_invalid_id(part, id) {
                            total = match total.checked_add(id) {
                                Some(sum) => sum,
                                None => {
                                    return None;
                                },
                            };
                        }
                        if id == end {
                            done = true;
                        } else {
                            id += 1;
                        }
                    }
                }
            },
        }
        i += 1;
    }
    Some(total)
}

} // verus!
