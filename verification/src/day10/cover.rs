//! The fewest button presses that bring every joltage counter to its target.
//!
//! A press of a button raises by one each counter whose position the button
//! covers: counter `p` is covered by the buttons that toggle light `p`.
//!
//! Machines whose counters are all to show zero, or with a counter that no
//! button raises, are settled here. For the others the press counts are found
//! by an optimizing solver. It is handed the system of [`Machine::cover_rows`]:
//! for each counter the buttons whose counts must add up to its target. Its
//! answer is not believed: the counts that it names are added up here, counter
//! by counter, and only counts that meet every target are returned. That no
//! smaller total meets them rests on the solver.

use super::bits::{bit_is_set, get_bit, lemma_lit_below, lit_below, to_indices};
use super::machine::{Machine, MachineError, MachineView};
use super::solver::{
    add_constraint, apply_params, evaluate, fresh_unknown, int_at_least, int_const, int_equals,
    int_sum, int_value, new_optimizer, new_params, read_model, run_check, set_objective,
    set_timeout, IntTerm, SolverStatus,
};
use vstd::prelude::*;

verus! {

/// What `presses[b]` presses of each button `b` among the first `upto` bring to the counter
/// at `pos`.
pub open spec fn joltage_at(buttons: Seq<u16>, presses: Seq<nat>, pos: int, upto: int) -> nat
    decreases upto,
{
    if upto <= 0 {
        0
    } else {
        joltage_at(buttons, presses, pos, upto - 1) + if bit_is_set(buttons[upto - 1], pos) {
            presses[upto - 1]
        } else {
            0
        }
    }
}

/// The sum of the first `upto` press counts.
pub open spec fn presses_sum(presses: Seq<nat>, upto: int) -> nat
    decreases upto,
{
    if upto <= 0 {
        0
    } else {
        presses_sum(presses, upto - 1) + presses[upto - 1]
    }
}

/// The number of presses in all.
pub open spec fn total_presses(presses: Seq<nat>) -> nat {
    presses_sum(presses, presses.len() as int)
}

/// `presses` names a count for each button, and every counter shows its target exactly.
pub open spec fn is_cover(m: MachineView, presses: Seq<nat>) -> bool {
    &&& presses.len() == m.buttons.len()
    &&& forall|pos: int|
        0 <= pos < m.joltage.len() ==> #[trigger] joltage_at(
            m.buttons,
            presses,
            pos,
            m.buttons.len() as int,
        ) == m.joltage[pos]
}

/// Some press counts with a total of `n` bring every counter to its target.
pub open spec fn has_cover_of(m: MachineView, n: nat) -> bool {
    exists|presses: Seq<nat>| #[trigger] is_cover(m, presses) && total_presses(presses) == n
}

/// None of the first `upto` buttons covers the position `pos`.
pub open spec fn none_covers(buttons: Seq<u16>, pos: int, upto: int) -> bool {
    forall|b: int| 0 <= b < upto ==> !bit_is_set(#[trigger] buttons[b], pos)
}

/// The counter at `pos` must show more than zero and no button raises it.
pub open spec fn is_stranded(m: MachineView, pos: int) -> bool {
    0 <= pos < m.joltage.len() && m.joltage[pos] > 0 && none_covers(
        m.buttons,
        pos,
        m.buttons.len() as int,
    )
}

/// Some counter must show more than zero and no button raises it.
pub open spec fn has_stranded_counter(m: MachineView) -> bool {
    exists|pos: int| is_stranded(m, pos)
}

/// Every counter is to show zero.
pub open spec fn all_at_zero(m: MachineView) -> bool {
    forall|pos: int| 0 <= pos < m.joltage.len() ==> #[trigger] m.joltage[pos] == 0
}

/// No press counts bring every counter to its target.
pub open spec fn is_infeasible(m: MachineView) -> bool {
    forall|presses: Seq<nat>| !#[trigger] is_cover(m, presses)
}

/// The greatest number of buttons for which the solver is asked: it takes no sum of more
/// terms.
pub const MAX_UNKNOWNS: usize = 0xffff_ffff;

/// The machine is one of those that are settled without the solver: its counters are all to
/// show zero, or one of them is stranded.
pub open spec fn is_settled(m: MachineView) -> bool {
    all_at_zero(m) || has_stranded_counter(m)
}

/// What holds of every result of the joltage question for the machine `m`.
///
/// * A total that is returned is the total of press counts that bring every counter to its
///   target. An error is one of the three that the solver can lead to.
/// * A machine that no press counts cover has an error for its result.
/// * A machine whose counters are all to show zero has zero for its result.
/// * A machine with a counter that must show more than zero while no button raises it has
///   [`MachineError::InfeasibleCover`] for its result.
/// * Any other machine with more than [`MAX_UNKNOWNS`] buttons has
///   [`MachineError::SolverFault`] for its result.
/// * For every machine that is left the solver is asked, and the result is what
///   [`outcome_of`] makes of its verdict and its answer.
pub open spec fn is_cover_result(m: MachineView, r: Result<usize, MachineError>) -> bool {
    &&& match r {
        Ok(n) => has_cover_of(m, n as nat),
        Err(e) => e == MachineError::InfeasibleCover || e == MachineError::SolverTimeout || e
            == MachineError::SolverFault,
    }
    &&& is_infeasible(m) ==> r is Err
    &&& all_at_zero(m) ==> r == Ok::<usize, MachineError>(0usize)
    &&& has_stranded_counter(m) ==> r == Err::<usize, MachineError>(MachineError::InfeasibleCover)
    &&& !is_settled(m) && m.buttons.len() > MAX_UNKNOWNS ==> r == Err::<usize, MachineError>(
        MachineError::SolverFault,
    )
    &&& !is_settled(m) && m.buttons.len() <= MAX_UNKNOWNS ==> exists|
        status: SolverStatus,
        answer: Option<Seq<u64>>,
    | r == #[trigger] outcome_of(m, status, answer)
}

/// The buttons among the first `upto` that cover the position `pos`, by their index and in
/// ascending order.
pub open spec fn covering(buttons: Seq<u16>, pos: int, upto: int) -> Seq<usize>
    decreases upto,
{
    if upto <= 0 {
        Seq::empty()
    } else if bit_is_set(buttons[upto - 1], pos) {
        covering(buttons, pos, upto - 1).push((upto - 1) as usize)
    } else {
        covering(buttons, pos, upto - 1)
    }
}

/// The sum of the press counts of the buttons that `row` lists.
pub open spec fn row_sum(presses: Seq<nat>, row: Seq<usize>) -> nat
    decreases row.len(),
{
    if row.len() == 0 {
        0
    } else {
        row_sum(presses, row.drop_last()) + presses[row.last() as int]
    }
}

/// The press counts meet every equation of the system that is handed to the solver: for
/// each counter, the counts of the buttons of its row add up to its target.
pub open spec fn meets_rows(m: MachineView, presses: Seq<nat>) -> bool {
    &&& presses.len() == m.buttons.len()
    &&& forall|pos: int|
        0 <= pos < m.joltage.len() ==> #[trigger] row_sum(
            presses,
            covering(m.buttons, pos, m.buttons.len() as int),
        ) == m.joltage[pos]
}

/// A row lists buttons that exist, and no more buttons than there are.
pub proof fn lemma_covering_bounds(buttons: Seq<u16>, pos: int, upto: int)
    requires
        0 <= upto <= usize::MAX,
    ensures
        covering(buttons, pos, upto).len() <= upto,
        forall|i: int|
            0 <= i < covering(buttons, pos, upto).len() ==> (#[trigger] covering(
                buttons,
                pos,
                upto,
            )[i]) < upto,
    decreases upto,
{
    if upto > 0 {
        lemma_covering_bounds(buttons, pos, upto - 1);
        let before = covering(buttons, pos, upto - 1);
        let row = covering(buttons, pos, upto);
        assert forall|i: int| 0 <= i < row.len() implies (#[trigger] row[i]) < upto by {
            if i < before.len() {
                assert(row[i] == before[i]);
            }
        }
    }
}

/// A row is empty exactly when no button covers its counter.
pub proof fn lemma_covering_empty(buttons: Seq<u16>, pos: int, upto: int)
    requires
        0 <= upto,
    ensures
        covering(buttons, pos, upto).len() == 0 <==> none_covers(buttons, pos, upto),
    decreases upto,
{
    if upto > 0 {
        lemma_covering_empty(buttons, pos, upto - 1);
        if none_covers(buttons, pos, upto) {
            assert(!bit_is_set(buttons[upto - 1], pos));
        }
    }
}

/// The counts of the buttons of a row add up to what the presses bring to its counter.
pub proof fn lemma_row_sum_is_joltage(buttons: Seq<u16>, presses: Seq<nat>, pos: int, upto: int)
    requires
        0 <= upto <= usize::MAX,
    ensures
        row_sum(presses, covering(buttons, pos, upto)) == joltage_at(buttons, presses, pos, upto),
    decreases upto,
{
    if upto > 0 {
        lemma_row_sum_is_joltage(buttons, presses, pos, upto - 1);
        if bit_is_set(buttons[upto - 1], pos) {
            let row = covering(buttons, pos, upto);
            assert(row.drop_last() == covering(buttons, pos, upto - 1));
            assert(row.last() == (upto - 1) as usize);
        }
    }
}

/// The system that is handed to the solver asks what a cover is: press counts meet its
/// equations exactly when they bring every counter to its target.
pub proof fn lemma_rows_mean_cover(m: MachineView, presses: Seq<nat>)
    requires
        m.buttons.len() <= usize::MAX,
    ensures
        meets_rows(m, presses) == is_cover(m, presses),
{
    let n = m.buttons.len() as int;
    assert forall|pos: int| 0 <= pos < m.joltage.len() implies row_sum(
        presses,
        covering(m.buttons, pos, n),
    ) == joltage_at(m.buttons, presses, pos, n) by {
        lemma_row_sum_is_joltage(m.buttons, presses, pos, n);
    }
    if meets_rows(m, presses) {
        assert forall|pos: int| 0 <= pos < m.joltage.len() implies #[trigger] joltage_at(
            m.buttons,
            presses,
            pos,
            n,
        ) == m.joltage[pos] by {
            assert(row_sum(presses, covering(m.buttons, pos, n)) == m.joltage[pos]);
        }
    }
    if is_cover(m, presses) {
        assert forall|pos: int| 0 <= pos < m.joltage.len() implies #[trigger] row_sum(
            presses,
            covering(m.buttons, pos, n),
        ) == m.joltage[pos] by {
            assert(joltage_at(m.buttons, presses, pos, n) == m.joltage[pos]);
        }
    }
}

/// The counts as natural numbers.
pub open spec fn as_nats(counts: Seq<u64>) -> Seq<nat> {
    Seq::new(counts.len(), |i: int| counts[i] as nat)
}

/// What is made of the solver's verdict and, where it found values, of the press counts
/// that it names.
pub open spec fn outcome_of(m: MachineView, status: SolverStatus, answer: Option<Seq<u64>>) -> Result<
    usize,
    MachineError,
> {
    match status {
        SolverStatus::Unsat => Err(MachineError::InfeasibleCover),
        SolverStatus::Unknown => Err(MachineError::SolverTimeout),
        SolverStatus::Sat => match answer {
            Some(counts) => if is_cover(m, as_nats(counts)) && total_presses(as_nats(counts))
                <= usize::MAX {
                Ok(total_presses(as_nats(counts)) as usize)
            } else {
                Err(MachineError::SolverFault)
            },
            None => Err(MachineError::SolverFault),
        },
    }
}

/// A counter that no button covers stays at zero whatever is pressed.
pub proof fn lemma_uncovered_stays_zero(buttons: Seq<u16>, presses: Seq<nat>, pos: int, upto: int)
    requires
        0 <= upto <= buttons.len(),
        none_covers(buttons, pos, upto),
    ensures
        joltage_at(buttons, presses, pos, upto) == 0,
    decreases upto,
{
    if upto > 0 {
        lemma_uncovered_stays_zero(buttons, presses, pos, upto - 1);
        assert(!bit_is_set(buttons[upto - 1], pos));
    }
}

/// A machine with a counter that must show more than zero and that no button raises has
/// no cover.
pub proof fn lemma_stranded_counter_is_infeasible(m: MachineView)
    requires
        has_stranded_counter(m),
    ensures
        is_infeasible(m),
{
    let pos = choose|pos: int| is_stranded(m, pos);
    assert forall|presses: Seq<nat>| !#[trigger] is_cover(m, presses) by {
        lemma_uncovered_stays_zero(m.buttons, presses, pos, m.buttons.len() as int);
    }
}

/// Every cover presses at least as often as the greatest target asks: a press raises a
/// counter by one at most.
pub proof fn lemma_cover_reaches_each_target(m: MachineView, presses: Seq<nat>, pos: int)
    requires
        is_cover(m, presses),
        0 <= pos < m.joltage.len(),
    ensures
        m.joltage[pos] <= total_presses(presses),
{
    lemma_joltage_below_sum(m.buttons, presses, pos, m.buttons.len() as int);
}

/// A counter shows no more than was pressed in all.
proof fn lemma_joltage_below_sum(buttons: Seq<u16>, presses: Seq<nat>, pos: int, upto: int)
    ensures
        joltage_at(buttons, presses, pos, upto) <= presses_sum(presses, upto),
    decreases upto,
{
    if upto > 0 {
        lemma_joltage_below_sum(buttons, presses, pos, upto - 1);
    }
}

/// Tells whether `list` holds `x`.
pub fn list_contains(list: &Vec<usize>, x: usize) -> (r: bool)
    ensures
        r == list@.contains(x),
{
    let mut i: usize = 0;
    while i < list.len()
        invariant
            i <= list.len(),
            forall|j: int| 0 <= j < i ==> list@[j] != x,
        decreases list.len() - i,
    {
        if list[i] == x {
            return true;
        }
        i += 1;
    }
    false
}

/// A position is in the list of a button's lights exactly when the button covers it.
pub proof fn lemma_listed_is_covered(button: u16, pos: usize)
    ensures
        lit_below(button, 16).contains(pos) <==> bit_is_set(button, pos as int),
{
    if pos < 16 {
        lemma_lit_below(button, 16, pos as int);
    } else {
        lemma_lit_bound(button, 16);
        if lit_below(button, 16).contains(pos) {
            let at = choose|at: int|
                0 <= at < lit_below(button, 16).len() && lit_below(button, 16)[at] == pos;
            assert(lit_below(button, 16)[at] < 16);
        }
    }
}

/// Every light that is listed is below the bound.
proof fn lemma_lit_bound(button: u16, upto: int)
    requires
        upto <= 16,
    ensures
        forall|i: int|
            0 <= i < lit_below(button, upto).len() ==> (#[trigger] lit_below(button, upto)[i]) < upto,
    decreases upto,
{
    if upto > 0 {
        lemma_lit_bound(button, upto - 1);
        let prev = lit_below(button, upto - 1);
        let cur = lit_below(button, upto);
        assert forall|i: int| 0 <= i < cur.len() implies (#[trigger] cur[i]) < upto by {
            if i < prev.len() {
                assert(cur[i] == prev[i]);
            }
        }
    }
}

/// Where every counter is to show zero, pressing nothing is a cover.
pub proof fn lemma_no_press_covers_zero(m: MachineView)
    requires
        all_at_zero(m),
    ensures
        is_cover(m, Seq::new(m.buttons.len(), |b: int| 0nat)),
        total_presses(Seq::new(m.buttons.len(), |b: int| 0nat)) == 0,
        has_cover_of(m, 0),
{
    let presses = Seq::new(m.buttons.len(), |b: int| 0nat);
    assert forall|pos: int| 0 <= pos < m.joltage.len() implies #[trigger] joltage_at(
        m.buttons,
        presses,
        pos,
        m.buttons.len() as int,
    ) == m.joltage[pos] by {
        lemma_no_press_no_joltage(m.buttons, pos, m.buttons.len() as int, m.buttons.len() as int);
    }
    lemma_no_press_no_sum(m.buttons.len() as int, m.buttons.len() as int);
    assert(is_cover(m, presses));
}

/// Pressing nothing leaves a counter at zero.
proof fn lemma_no_press_no_joltage(buttons: Seq<u16>, pos: int, len: int, upto: int)
    requires
        0 <= upto <= len,
    ensures
        joltage_at(buttons, Seq::new(len as nat, |b: int| 0nat), pos, upto) == 0,
    decreases upto,
{
    if upto > 0 {
        lemma_no_press_no_joltage(buttons, pos, len, upto - 1);
    }
}

/// Pressing nothing adds up to nothing.
proof fn lemma_no_press_no_sum(len: int, upto: int)
    requires
        0 <= upto <= len,
    ensures
        presses_sum(Seq::new(len as nat, |b: int| 0nat), upto) == 0,
    decreases upto,
{
    if upto > 0 {
        lemma_no_press_no_sum(len, upto - 1);
    }
}

impl Machine {
    /// For each button, the positions that it covers, in ascending order.
    pub fn convert_buttons(&self) -> (r: Vec<Vec<usize>>)
        ensures
            r@.len() == self@.buttons.len(),
            forall|b: int| 0 <= b < r@.len() ==> (#[trigger] r@[b])@ == lit_below(self@.buttons[b], 16),
    {
        let buttons = self.buttons();
        let mut out: Vec<Vec<usize>> = Vec::new();
        let mut b: usize = 0;
        while b < buttons.len()
            invariant
                b <= buttons.len(),
                buttons@ == self@.buttons,
                out@.len() == b,
                forall|k: int| 0 <= k < b ==> (#[trigger] out@[k])@ == lit_below(self@.buttons[k], 16),
            decreases buttons.len() - b,
        {
            out.push(to_indices(buttons[b]));
            b += 1;
        }
        out
    }

    /// Adds up what `counts` presses bring to each counter, and returns their total if every
    /// counter then shows its target and the total fits a `usize`.
    pub fn check_cover(&self, counts: &Vec<u64>) -> (r: Option<usize>)
        ensures
            r == if is_cover(self@, as_nats(counts@)) && total_presses(as_nats(counts@))
                <= usize::MAX {
                Some(total_presses(as_nats(counts@)) as usize)
            } else {
                None
            },
    {
        let buttons = self.buttons();
        let joltage = self.joltage();
        let n = buttons.len();
        if counts.len() != n {
            return None;
        }
        let ghost presses = as_nats(counts@);
        let mut pos: usize = 0;
        while pos < joltage.len()
            invariant
                pos <= joltage.len(),
                n == buttons.len(),
                counts.len() == n,
                buttons@ == self@.buttons,
                joltage@ == self@.joltage,
                presses == as_nats(counts@),
                forall|p: int|
                    0 <= p < pos ==> #[trigger] joltage_at(self@.buttons, presses, p, n as int)
                        == self@.joltage[p],
            decreases joltage.len() - pos,
        {
            let mut sum: u128 = 0;
            let mut b: usize = 0;
            while b < n
                invariant
                    b <= n,
                    n == buttons.len(),
                    counts.len() == n,
                    presses == as_nats(counts@),
                    sum == joltage_at(buttons@, presses, pos as int, b as int),
                    sum <= b * 0xffff_ffff_ffff_ffff,
                decreases n - b,
            {
                if get_bit(buttons[b], pos) {
                    sum = sum + counts[b] as u128;
                }
                b += 1;
            }
            if sum != joltage[pos] as u128 {
                return None;
            }
            pos += 1;
        }
        let mut total: u128 = 0;
        let mut b: usize = 0;
        while b < n
            invariant
                b <= n,
                counts.len() == n,
                presses == as_nats(counts@),
                total == presses_sum(presses, b as int),
                total <= b * 0xffff_ffff_ffff_ffff,
            decreases n - b,
        {
            total = total + counts[b] as u128;
            b += 1;
        }
        if total > usize::MAX as u128 {
            return None;
        }
        Some(total as usize)
    }

    /// Settles what the solver's verdict means for this machine.
    ///
    /// A verdict that no values exist is [`MachineError::InfeasibleCover`], one that the
    /// solver gave up is [`MachineError::SolverTimeout`]. Where it found values, `answer`
    /// holds the press count that it names for each button: their total is returned if
    /// they bring every counter to its target, and [`MachineError::SolverFault`] otherwise.
    pub fn cover_outcome(&self, status: SolverStatus, answer: Option<Vec<u64>>) -> (r: Result<
        usize,
        MachineError,
    >)
        ensures
            r == outcome_of(
                self@,
                status,
                match answer {
                    Some(counts) => Some(counts@),
                    None => None,
                },
            ),
    {
        match status {
            SolverStatus::Unsat => Err(MachineError::InfeasibleCover),
            SolverStatus::Unknown => Err(MachineError::SolverTimeout),
            SolverStatus::Sat => match answer {
                Some(counts) => match self.check_cover(&counts) {
                    Some(total) => Ok(total),
                    None => Err(MachineError::SolverFault),
                },
                None => Err(MachineError::SolverFault),
            },
        }
    }

    /// Tells whether some button covers the position `pos`.
    pub fn any_covers(&self, pos: usize) -> (r: bool)
        ensures
            r == !none_covers(self@.buttons, pos as int, self@.buttons.len() as int),
    {
        let lists = self.convert_buttons();
        let mut b: usize = 0;
        while b < lists.len()
            invariant
                b <= lists.len(),
                lists@.len() == self@.buttons.len(),
                forall|k: int|
                    0 <= k < lists@.len() ==> (#[trigger] lists@[k])@ == lit_below(
                        self@.buttons[k],
                        16,
                    ),
                none_covers(self@.buttons, pos as int, b as int),
            decreases lists.len() - b,
        {
            proof {
                lemma_listed_is_covered(self@.buttons[b as int], pos);
            }
            if list_contains(&lists[b], pos) {
                assert(bit_is_set(self@.buttons[b as int], pos as int));
                return true;
            }
            b += 1;
        }
        false
    }

    /// Tells whether some counter must show more than zero while no button raises it.
    pub fn stranded_counter(&self) -> (r: bool)
        ensures
            r == has_stranded_counter(self@),
    {
        let joltage = self.joltage();
        let mut pos: usize = 0;
        while pos < joltage.len()
            invariant
                pos <= joltage.len(),
                joltage@ == self@.joltage,
                forall|p: int| 0 <= p < pos ==> !is_stranded(self@, p),
            decreases joltage.len() - pos,
        {
            if joltage[pos] > 0 && !self.any_covers(pos) {
                assert(is_stranded(self@, pos as int));
                return true;
            }
            pos += 1;
        }
        false
    }

    /// Tells whether every counter is to show zero.
    pub fn targets_at_zero(&self) -> (r: bool)
        ensures
            r == all_at_zero(self@),
    {
        let joltage = self.joltage();
        let mut pos: usize = 0;
        while pos < joltage.len()
            invariant
                pos <= joltage.len(),
                joltage@ == self@.joltage,
                forall|p: int| 0 <= p < pos ==> #[trigger] self@.joltage[p] == 0,
            decreases joltage.len() - pos,
        {
            if joltage[pos] != 0 {
                return false;
            }
            pos += 1;
        }
        true
    }

    /// The fewest button presses, over all buttons, that bring every joltage counter to its
    /// target.
    ///
    /// The total that is returned is that of press counts which do bring every counter to
    /// its target: they were added up. That it is the least such total is the solver's
    /// word. A machine with a counter that must show more than zero while no button raises
    /// it fails with [`MachineError::InfeasibleCover`] before the solver is asked, and a
    /// machine whose counters are all to show zero needs no press. Any other machine with
    /// more than [`MAX_UNKNOWNS`] buttons is beyond the solver and fails with
    /// [`MachineError::SolverFault`]. For the rest the solver is handed the system of
    /// [`Machine::cover_rows`] and its verdict decides, as [`Machine::cover_outcome`] says.
    /// All of this is [`is_cover_result`].
    pub fn fewest_presses_joltage(&self) -> (r: Result<usize, MachineError>)
        ensures
            is_cover_result(self@, r),
    {
        self.solve_cover(None)
    }

    /// As [`Machine::fewest_presses_joltage`], with the solver told to give up after
    /// `budget_ms` milliseconds. A solver that gives up leads to
    /// [`MachineError::SolverTimeout`], and the question can be asked again with more time.
    pub fn fewest_presses_joltage_within(&self, budget_ms: u32) -> (r: Result<usize, MachineError>)
        ensures
            is_cover_result(self@, r),
    {
        self.solve_cover(Some(budget_ms))
    }

    /// The system of equations that is handed to the solver, as plain values: for each
    /// counter, the row of the buttons that cover it, by their index and in ascending order.
    ///
    /// The solver is to find a press count for each button, none of them negative, such
    /// that for each counter the counts of its row add up to its target, and such that the
    /// sum of all counts is the least. [`lemma_rows_mean_cover`] says that such counts are
    /// a cover.
    pub fn cover_rows(&self) -> (rows: Vec<Vec<usize>>)
        ensures
            rows@.len() == self@.joltage.len(),
            forall|p: int|
                0 <= p < rows@.len() ==> (#[trigger] rows@[p])@ == covering(
                    self@.buttons,
                    p,
                    self@.buttons.len() as int,
                ),
    {
        let lists = self.convert_buttons();
        let n = lists.len();
        let count = self.joltage().len();
        let mut rows: Vec<Vec<usize>> = Vec::new();
        let mut pos: usize = 0;
        while pos < count
            invariant
                pos <= count,
                count == self@.joltage.len(),
                n == self@.buttons.len(),
                lists@.len() == n,
                forall|b: int|
                    0 <= b < lists@.len() ==> (#[trigger] lists@[b])@ == lit_below(
                        self@.buttons[b],
                        16,
                    ),
                rows@.len() == pos,
                forall|p: int|
                    0 <= p < pos ==> (#[trigger] rows@[p])@ == covering(
                        self@.buttons,
                        p,
                        n as int,
                    ),
            decreases count - pos,
        {
            let mut row: Vec<usize> = Vec::new();
            let mut b: usize = 0;
            while b < n
                invariant
                    b <= n,
                    n == self@.buttons.len(),
                    lists@.len() == n,
                    forall|k: int|
                        0 <= k < lists@.len() ==> (#[trigger] lists@[k])@ == lit_below(
                            self@.buttons[k],
                            16,
                        ),
                    row@ == covering(self@.buttons, pos as int, b as int),
                decreases n - b,
            {
                proof {
                    lemma_listed_is_covered(self@.buttons[b as int], pos);
                }
                if list_contains(&lists[b], pos) {
                    row.push(b);
                }
                b += 1;
            }
            rows.push(row);
            pos += 1;
        }
        rows
    }

    /// Settles the machines that need no solver, and for the others hands the system of
    /// [`Machine::cover_rows`] to the solver and settles its verdict.
    fn solve_cover(&self, budget_ms: Option<u32>) -> (r: Result<usize, MachineError>)
        ensures
            is_cover_result(self@, r),
    {
        if self.targets_at_zero() {
            proof {
                lemma_no_press_covers_zero(self@);
            }
            return Ok(0);
        }
        if self.stranded_counter() {
            proof {
                lemma_stranded_counter_is_infeasible(self@);
            }
            return Err(MachineError::InfeasibleCover);
        }
        if self.buttons().len() > MAX_UNKNOWNS {
            return Err(MachineError::SolverFault);
        }
        let rows = self.cover_rows();
        let (status, answer) = self.ask_solver(&rows, budget_ms);
        let r = self.cover_outcome(status, answer);
        assert(r == outcome_of(
            self@,
            status,
            match answer {
                Some(counts) => Some(counts@),
                None => None,
            },
        ));
        r
    }

    /// Hands the system to the solver and brings back its verdict and, where it found
    /// values, the press count that it names for each button.
    ///
    /// There is an unknown for each button, which is not to be negative. For each counter
    /// with a row that is not empty, the unknowns of the row are to add up to the counter's
    /// target; a counter with an empty row is to show zero and asks nothing. The sum of all
    /// unknowns is to be the least. Nothing is known of what comes back but that an answer
    /// names one count for each button.
    fn ask_solver(&self, rows: &Vec<Vec<usize>>, budget_ms: Option<u32>) -> (r: (
        SolverStatus,
        Option<Vec<u64>>,
    ))
        requires
            !is_settled(self@),
            self@.buttons.len() <= MAX_UNKNOWNS,
            rows@.len() == self@.joltage.len(),
            forall|p: int|
                0 <= p < rows@.len() ==> (#[trigger] rows@[p])@ == covering(
                    self@.buttons,
                    p,
                    self@.buttons.len() as int,
                ),
        ensures
            match r.1 {
                Some(counts) => counts@.len() == self@.buttons.len(),
                None => true,
            },
    {
        let joltage = self.joltage();
        let n = self.buttons().len();
        proof {
            if n == 0 {
                let pos = choose|pos: int| 0 <= pos < self@.joltage.len() && self@.joltage[pos] != 0;
                assert(is_stranded(self@, pos));
            }
        }
        let optimizer = new_optimizer();
        match budget_ms {
            Some(millis) => {
                let mut params = new_params();
                set_timeout(&mut params, millis);
                apply_params(&optimizer, &params);
            },
            None => {},
        }
        let mut unknowns: Vec<IntTerm> = Vec::new();
        let mut every: Vec<usize> = Vec::new();
        let mut b: usize = 0;
        while b < n
            invariant
                b <= n,
                unknowns@.len() == b,
                every@.len() == b,
                forall|i: int| 0 <= i < b ==> #[trigger] every@[i] == i,
            decreases n - b,
        {
            let unknown = fresh_unknown(b);
            add_constraint(&optimizer, &int_at_least(&unknown, 0));
            unknowns.push(unknown);
            every.push(b);
            b += 1;
        }
        let mut pos: usize = 0;
        while pos < rows.len()
            invariant
                pos <= rows@.len(),
                rows@.len() == joltage@.len(),
                unknowns@.len() == n,
                n == self@.buttons.len(),
                n <= MAX_UNKNOWNS,
                forall|p: int|
                    0 <= p < rows@.len() ==> (#[trigger] rows@[p])@ == covering(
                        self@.buttons,
                        p,
                        n as int,
                    ),
            decreases rows@.len() - pos,
        {
            let row = &rows[pos];
            proof {
                lemma_covering_bounds(self@.buttons, pos as int, n as int);
            }
            if row.len() > 0 {
                let sum = int_sum(&pick_terms(&unknowns, row));
                let target = int_const(joltage[pos] as u64);
                add_constraint(&optimizer, &int_equals(&sum, &target));
            }
            pos += 1;
        }
        let total = fresh_unknown(n);
        add_constraint(&optimizer, &int_equals(&total, &int_sum(&pick_terms(&unknowns, &every))));
        set_objective(&optimizer, &total);
        let status = run_check(&optimizer);
        let answer = match status {
            SolverStatus::Sat => read_counts(&optimizer, &unknowns),
            _ => None,
        };
        (status, answer)
    }
}

/// The unknowns that `row` lists, in the order of the row.
fn pick_terms<'a>(unknowns: &'a Vec<IntTerm>, row: &Vec<usize>) -> (terms: Vec<&'a IntTerm>)
    requires
        forall|i: int| 0 <= i < row@.len() ==> (#[trigger] row@[i]) < unknowns@.len(),
    ensures
        terms@.len() == row@.len(),
        forall|i: int| 0 <= i < terms@.len() ==> *(#[trigger] terms@[i]) == unknowns@[row@[i] as int],
{
    let mut terms: Vec<&IntTerm> = Vec::new();
    let mut i: usize = 0;
    while i < row.len()
        invariant
            i <= row@.len(),
            forall|k: int| 0 <= k < row@.len() ==> (#[trigger] row@[k]) < unknowns@.len(),
            terms@.len() == i,
            forall|k: int| 0 <= k < i ==> *(#[trigger] terms@[k]) == unknowns@[row@[k] as int],
        decreases row@.len() - i,
    {
        terms.push(&unknowns[row[i]]);
        i += 1;
    }
    terms
}

/// Reads from the optimizer's model the value of each unknown, if it has a model and every
/// value is there and fits a `u64`.
///
/// What comes back holds one count for each unknown, in the order of the unknowns. Which
/// counts they are, and whether there are any, is the solver's doing: the caller tests them.
fn read_counts(optimizer: &z3::Optimize, unknowns: &Vec<IntTerm>) -> (r: Option<Vec<u64>>)
    ensures
        match r {
            Some(counts) => counts@.len() == unknowns@.len(),
            None => true,
        },
{
    let model = match read_model(optimizer) {
        Some(model) => model,
        None => {
            return None;
        },
    };
    let mut counts: Vec<u64> = Vec::new();
    let mut b: usize = 0;
    while b < unknowns.len()
        invariant
            b <= unknowns.len(),
            counts@.len() == b,
        decreases unknowns.len() - b,
    {
        let value = match evaluate(&model, &unknowns[b]) {
            Some(term) => int_value(&term),
            None => None,
        };
        match value {
            Some(count) => counts.push(count),
            None => {
                return None;
            },
        }
        b += 1;
    }
    Some(counts)
}

} // verus!
