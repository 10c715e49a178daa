//! The total over a batch of machines.
//!
//! Each machine is solved by itself and the results are added up. A machine
//! that fails makes the batch fail, with the error of the first machine of
//! the list that has one. The machines share nothing, so they can as well be
//! solved side by side and their results handed to [`sum_results`].

use super::machine::{Machine, MachineError};
use vstd::prelude::*;

verus! {

/// The sum of the results, or the error of the first of them that is one.
pub open spec fn batch_total(results: Seq<Result<usize, MachineError>>) -> Result<nat, MachineError>
    decreases results.len(),
{
    if results.len() == 0 {
        Ok(0)
    } else {
        match batch_total(results.drop_last()) {
            Err(e) => Err(e),
            Ok(sum) => match results.last() {
                Err(e) => Err(e),
                Ok(n) => Ok(sum + n as nat),
            },
        }
    }
}

/// `r` is the total `t`, or the same error.
pub open spec fn is_total(r: Result<u128, MachineError>, t: Result<nat, MachineError>) -> bool {
    match (r, t) {
        (Ok(got), Ok(sum)) => got == sum,
        (Err(e), Err(f)) => e == f,
        _ => false,
    }
}

/// The total of two batches laid end to end: the sum of their totals, or the error of the
/// first batch, or else that of the second.
pub open spec fn joined(
    first: Result<nat, MachineError>,
    second: Result<nat, MachineError>,
) -> Result<nat, MachineError> {
    match (first, second) {
        (Err(e), _) => Err(e),
        (Ok(_), Err(e)) => Err(e),
        (Ok(a), Ok(b)) => Ok(a + b),
    }
}

/// Splitting a batch in two and adding the two totals gives the total of the whole batch.
pub proof fn lemma_batch_splits(
    first: Seq<Result<usize, MachineError>>,
    second: Seq<Result<usize, MachineError>>,
)
    ensures
        batch_total(first + second) == joined(batch_total(first), batch_total(second)),
    decreases second.len(),
{
    if second.len() == 0 {
        assert(first + second == first);
    } else {
        lemma_batch_splits(first, second.drop_last());
        assert((first + second).drop_last() == first + second.drop_last());
        assert((first + second).last() == second.last());
    }
}

/// A total is at most the number of results times the greatest `usize`.
proof fn lemma_total_bound(results: Seq<Result<usize, MachineError>>)
    ensures
        match batch_total(results) {
            Ok(sum) => sum <= results.len() * usize::MAX,
            Err(_) => true,
        },
    decreases results.len(),
{
    if results.len() > 0 {
        lemma_total_bound(results.drop_last());
        assert((results.len() - 1) * usize::MAX + usize::MAX == results.len() * usize::MAX)
            by (nonlinear_arith);
    }
}

/// Adds up the results of a batch.
///
/// The total is the sum of the results if all are `Ok`, and else the error of the first
/// that is not.
pub fn sum_results(results: &Vec<Result<usize, MachineError>>) -> (r: Result<u128, MachineError>)
    ensures
        is_total(r, batch_total(results@)),
{
    let mut total: u128 = 0;
    let mut i: usize = 0;
    while i < results.len()
        invariant
            i <= results.len(),
            batch_total(results@.take(i as int)) == Ok::<nat, MachineError>(total as nat),
        decreases results.len() - i,
    {
        proof {
            assert(results@.take(i + 1).drop_last() == results@.take(i as int));
            lemma_total_bound(results@.take(i + 1));
            assert((i + 1) * usize::MAX <= u64::MAX * u64::MAX) by (nonlinear_arith)
                requires
                    i + 1 <= usize::MAX,
                    usize::MAX <= u64::MAX,
            ;
        }
        match results[i] {
            Err(e) => {
                proof {
                    lemma_batch_splits(
                        results@.take(i + 1),
                        results@.subrange(i + 1, results@.len() as int),
                    );
                    assert(results@.take(i + 1) + results@.subrange(i + 1, results@.len() as int)
                        == results@);
                }
                return Err(e);
            },
            Ok(n) => {
                total = total + n as u128;
            },
        }
        i += 1;
    }
    proof {
        assert(results@.take(i as int) == results@);
    }
    Ok(total)
}

/// The total of what `process_machine` finds for each machine of `input`, where
/// `process_machine` is [`Machine::fewest_presses_lights`] or
/// [`Machine::fewest_presses_joltage`].
///
/// Every machine is solved by itself. The total is the sum of the results, or the error of
/// the first machine of the list that has one. Each result is one that `process_machine`
/// promises for its machine.
pub fn solution<F: Fn(&Machine) -> Result<usize, MachineError>>(
    process_machine: F,
    input: &Vec<Machine>,
) -> (r: Result<u128, MachineError>)
    requires
        forall|i: int| 0 <= i < input@.len() ==> call_requires(process_machine, (&input@[i],)),
    ensures
        exists|results: Seq<Result<usize, MachineError>>|
            {
                &&& results.len() == input@.len()
                &&& forall|i: int|
                    0 <= i < results.len() ==> call_ensures(
                        process_machine,
                        (&input@[i],),
                        #[trigger] results[i],
                    )
                &&& is_total(r, #[trigger] batch_total(results))
            },
{
    let mut results: Vec<Result<usize, MachineError>> = Vec::new();
    let mut i: usize = 0;
    while i < input.len()
        invariant
            i <= input.len(),
            results@.len() == i,
            forall|k: int| 0 <= k < input@.len() ==> call_requires(process_machine, (&input@[k],)),
            forall|k: int|
                0 <= k < i ==> call_ensures(process_machine, (&input@[k],), #[trigger] results@[k]),
        decreases input.len() - i,
    {
        results.push(process_machine(&input[i]));
        i += 1;
    }
    let r = sum_results(&results);
    assert(is_total(r, batch_total(results@)));
    r
}

} // verus!
