//! The fewest button presses that turn a dark machine into its target pattern.
//!
//! Pressing a button flips the lights of its mask, so a press is an exclusive or
//! of the current state with that mask. The search is breadth first from the
//! dark state.

use super::machine::{Machine, MachineError};
use std::collections::{HashSet, VecDeque};
use vstd::prelude::*;
use vstd::set_lib::{lemma_int_range, lemma_len_subset, lemma_map_size_bound, set_int_range};

verus! {

/// The state after pressing, from the dark state and in order, the buttons that `presses`
/// lists by their index in `buttons`.
pub open spec fn state_after(buttons: Seq<u16>, presses: Seq<int>) -> u16
    decreases presses.len(),
{
    if presses.len() == 0 {
        0u16
    } else {
        state_after(buttons, presses.drop_last()) ^ buttons[presses.last()]
    }
}

/// Every press names a button that exists.
pub open spec fn valid_presses(buttons: Seq<u16>, presses: Seq<int>) -> bool {
    forall|i: int| 0 <= i < presses.len() ==> 0 <= #[trigger] presses[i] < buttons.len()
}

/// Some `n` presses of `buttons` lead from the dark state to `target`.
pub open spec fn reachable_in(buttons: Seq<u16>, n: nat, target: u16) -> bool {
    exists|presses: Seq<int>|
        #![trigger state_after(buttons, presses)]
        presses.len() == n && valid_presses(buttons, presses) && state_after(buttons, presses)
            == target
}

/// `n` presses reach `target`, and no fewer do.
pub open spec fn is_fewest(buttons: Seq<u16>, target: u16, n: nat) -> bool {
    &&& reachable_in(buttons, n, target)
    &&& forall|k: nat| k < n ==> !reachable_in(buttons, k, target)
}

/// No number of presses reaches `target`.
pub open spec fn never_reached(buttons: Seq<u16>, target: u16) -> bool {
    forall|k: nat| !reachable_in(buttons, k, target)
}

/// `s` is `n` steps from the dark state, a step being the exclusive or with a mask of `masks`.
pub open spec fn steps(masks: Set<u16>, n: nat, s: u16) -> bool
    decreases n,
{
    if n == 0 {
        s == 0
    } else {
        exists|m: u16| #[trigger] masks.contains(m) && steps(masks, (n - 1) as nat, s ^ m)
    }
}

/// Pressing a button twice changes nothing.
proof fn lemma_xor_twice(a: u16, b: u16)
    ensures
        (a ^ b) ^ b == a,
{
    assert((a ^ b) ^ b == a) by (bit_vector);
}

/// A state reached by `n` presses is `n` steps away over the set of the buttons' masks.
pub proof fn lemma_presses_are_steps(buttons: Seq<u16>, presses: Seq<int>)
    requires
        valid_presses(buttons, presses),
    ensures
        steps(buttons.to_set(), presses.len(), state_after(buttons, presses)),
    decreases presses.len(),
{
    if presses.len() > 0 {
        let front = presses.drop_last();
        let m = buttons[presses.last()];
        lemma_presses_are_steps(buttons, front);
        lemma_xor_twice(state_after(buttons, front), m);
        assert(buttons.to_set().contains(m));
        assert(steps(
            buttons.to_set(),
            (presses.len() - 1) as nat,
            state_after(buttons, presses) ^ m,
        ));
    }
}

/// A state `n` steps away over the set of the buttons' masks is reached by `n` presses.
pub proof fn lemma_steps_are_presses(buttons: Seq<u16>, n: nat, s: u16)
    requires
        steps(buttons.to_set(), n, s),
    ensures
        reachable_in(buttons, n, s),
    decreases n,
{
    if n == 0 {
        let none = Seq::<int>::empty();
        assert(state_after(buttons, none) == s);
    } else {
        let m = choose|m: u16|
            #[trigger] buttons.to_set().contains(m) && steps(
                buttons.to_set(),
                (n - 1) as nat,
                s ^ m,
            );
        lemma_steps_are_presses(buttons, (n - 1) as nat, s ^ m);
        let front = choose|presses: Seq<int>|
            #![trigger state_after(buttons, presses)]
            presses.len() == n - 1 && valid_presses(buttons, presses) && state_after(
                buttons,
                presses,
            ) == s ^ m;
        let b = choose|b: int| 0 <= b < buttons.len() && buttons[b] == m;
        let presses = front.push(b);
        assert(presses.drop_last() == front);
        lemma_xor_twice(s, m);
        assert(state_after(buttons, presses) == s);
    }
}

/// How many presses reach a state depends on which masks the buttons have, not on their order
/// in the list nor on how often a mask occurs.
pub proof fn lemma_button_order_is_irrelevant(
    first: Seq<u16>,
    second: Seq<u16>,
    n: nat,
    target: u16,
)
    requires
        first.to_set() == second.to_set(),
    ensures
        reachable_in(first, n, target) == reachable_in(second, n, target),
        is_fewest(first, target, n) == is_fewest(second, target, n),
        never_reached(first, target) == never_reached(second, target),
{
    assert forall|k: nat| reachable_in(first, k, target) == reachable_in(second, k, target) by {
        lemma_same_masks_reach_alike(first, second, k, target);
        lemma_same_masks_reach_alike(second, first, k, target);
    }
}

/// Buttons that are put in another order take as many presses to show a pattern.
pub proof fn lemma_reordered_buttons(first: Seq<u16>, second: Seq<u16>, n: nat, target: u16)
    requires
        first.to_multiset() == second.to_multiset(),
    ensures
        reachable_in(first, n, target) == reachable_in(second, n, target),
        is_fewest(first, target, n) == is_fewest(second, target, n),
        never_reached(first, target) == never_reached(second, target),
{
    broadcast use vstd::seq_lib::group_to_multiset_ensures;

    assert forall|m: u16| first.to_set().contains(m) == second.to_set().contains(m) by {
        assert(first.contains(m) <==> first.to_multiset().count(m) > 0);
        assert(second.contains(m) <==> second.to_multiset().count(m) > 0);
    }
    assert(first.to_set() =~= second.to_set());
    lemma_button_order_is_irrelevant(first, second, n, target);
}

/// What the buttons of one list reach, those of a list with the same masks reach as well.
proof fn lemma_same_masks_reach_alike(first: Seq<u16>, second: Seq<u16>, n: nat, target: u16)
    requires
        first.to_set() == second.to_set(),
    ensures
        reachable_in(first, n, target) ==> reachable_in(second, n, target),
{
    if reachable_in(first, n, target) {
        let presses = choose|presses: Seq<int>|
            #![trigger state_after(first, presses)]
            presses.len() == n && valid_presses(first, presses) && state_after(first, presses)
                == target;
        lemma_presses_are_steps(first, presses);
        lemma_steps_are_presses(second, n, target);
    }
}

/// A pattern has one fewest number of presses.
pub proof fn lemma_fewest_is_unique(buttons: Seq<u16>, target: u16, first: nat, second: nat)
    requires
        is_fewest(buttons, target, first),
        is_fewest(buttons, target, second),
    ensures
        first == second,
{
    if first < second {
        assert(!reachable_in(buttons, first, target));
    } else if second < first {
        assert(!reachable_in(buttons, second, target));
    }
}

/// No presses at all reach the dark state, so it takes none.
pub proof fn lemma_dark_target_takes_no_press(buttons: Seq<u16>)
    ensures
        is_fewest(buttons, 0u16, 0),
{
    assert(steps(buttons.to_set(), 0, 0u16));
    lemma_steps_are_presses(buttons, 0, 0u16);
}

/// The pattern that shows when each of the first `upto` buttons that `chosen` marks is
/// pressed once.
pub open spec fn shown_by(buttons: Seq<u16>, chosen: Seq<bool>, upto: int) -> u16
    decreases upto,
{
    if upto <= 0 {
        0u16
    } else if chosen[upto - 1] {
        shown_by(buttons, chosen, upto - 1) ^ buttons[upto - 1]
    } else {
        shown_by(buttons, chosen, upto - 1)
    }
}

/// The number of the first `upto` buttons that `chosen` marks.
pub open spec fn count_chosen(chosen: Seq<bool>, upto: int) -> nat
    decreases upto,
{
    if upto <= 0 {
        0
    } else if chosen[upto - 1] {
        count_chosen(chosen, upto - 1) + 1
    } else {
        count_chosen(chosen, upto - 1)
    }
}

/// `chosen` marks some of the buttons, and pressing each of those once shows `target`.
pub open spec fn shows(buttons: Seq<u16>, chosen: Seq<bool>, target: u16) -> bool {
    chosen.len() == buttons.len() && shown_by(buttons, chosen, buttons.len() as int) == target
}

/// Some `n` of the buttons, each pressed once, show `target`, and no fewer buttons do.
pub open spec fn is_smallest_choice(buttons: Seq<u16>, target: u16, n: nat) -> bool {
    &&& exists|chosen: Seq<bool>|
        #[trigger] shows(buttons, chosen, target) && count_chosen(chosen, buttons.len() as int)
            == n
    &&& forall|chosen: Seq<bool>|
        #[trigger] shows(buttons, chosen, target) ==> n <= count_chosen(
            chosen,
            buttons.len() as int,
        )
}

/// No choice of buttons, each pressed once, shows `target`.
pub open spec fn never_shown(buttons: Seq<u16>, target: u16) -> bool {
    forall|chosen: Seq<bool>| !#[trigger] shows(buttons, chosen, target)
}

/// The presses that press, in ascending order, each of the first `upto` buttons that
/// `chosen` marks.
pub open spec fn presses_of(chosen: Seq<bool>, upto: int) -> Seq<int>
    decreases upto,
{
    if upto <= 0 {
        Seq::empty()
    } else if chosen[upto - 1] {
        presses_of(chosen, upto - 1).push(upto - 1)
    } else {
        presses_of(chosen, upto - 1)
    }
}

/// The order of two presses does not matter.
proof fn lemma_xor_swaps(a: u16, b: u16, c: u16)
    ensures
        (a ^ b) ^ c == (a ^ c) ^ b,
{
    assert((a ^ b) ^ c == (a ^ c) ^ b) by (bit_vector);
}

/// Pressing each chosen button once is a sequence of as many presses as buttons are chosen,
/// and shows the same pattern.
pub proof fn lemma_choice_is_pressed(buttons: Seq<u16>, chosen: Seq<bool>, upto: int)
    requires
        chosen.len() == buttons.len(),
        0 <= upto <= buttons.len(),
    ensures
        valid_presses(buttons, presses_of(chosen, upto)),
        presses_of(chosen, upto).len() == count_chosen(chosen, upto),
        state_after(buttons, presses_of(chosen, upto)) == shown_by(buttons, chosen, upto),
    decreases upto,
{
    if upto > 0 {
        lemma_choice_is_pressed(buttons, chosen, upto - 1);
        if chosen[upto - 1] {
            let before = presses_of(chosen, upto - 1);
            let presses = presses_of(chosen, upto);
            assert(presses.drop_last() == before);
            assert forall|i: int| 0 <= i < presses.len() implies 0 <= #[trigger] presses[i]
                < buttons.len() by {
                if i < before.len() {
                    assert(presses[i] == before[i]);
                }
            }
        }
    }
}

/// Marking a button that was not marked, or the other way round, is one more press of that
/// button.
pub proof fn lemma_toggled_choice(buttons: Seq<u16>, chosen: Seq<bool>, at: int, upto: int)
    requires
        chosen.len() == buttons.len(),
        0 <= at < buttons.len(),
        0 <= upto <= buttons.len(),
    ensures
        shown_by(buttons, chosen.update(at, !chosen[at]), upto) == if at < upto {
            shown_by(buttons, chosen, upto) ^ buttons[at]
        } else {
            shown_by(buttons, chosen, upto)
        },
        count_chosen(chosen.update(at, !chosen[at]), upto) <= count_chosen(chosen, upto) + if at
            < upto {
            1nat
        } else {
            0nat
        },
    decreases upto,
{
    if upto > 0 {
        lemma_toggled_choice(buttons, chosen, at, upto - 1);
        let before = shown_by(buttons, chosen, upto - 1);
        if upto - 1 == at {
            lemma_xor_twice(before, buttons[at]);
        } else if at < upto - 1 {
            lemma_xor_swaps(before, buttons[at], buttons[upto - 1]);
        }
    }
}

/// What a sequence of presses shows, a choice of no more buttons than there are presses
/// shows as well: the buttons that are pressed an odd number of times.
pub proof fn lemma_presses_are_a_choice(buttons: Seq<u16>, presses: Seq<int>) -> (chosen: Seq<bool>)
    requires
        valid_presses(buttons, presses),
    ensures
        shows(buttons, chosen, state_after(buttons, presses)),
        count_chosen(chosen, buttons.len() as int) <= presses.len(),
    decreases presses.len(),
{
    if presses.len() == 0 {
        let none = Seq::new(buttons.len(), |i: int| false);
        lemma_nothing_chosen(buttons, none, buttons.len() as int);
        none
    } else {
        let front = presses.drop_last();
        assert forall|i: int| 0 <= i < front.len() implies 0 <= #[trigger] front[i]
            < buttons.len() by {
            assert(front[i] == presses[i]);
        }
        let before = lemma_presses_are_a_choice(buttons, front);
        let at = presses.last();
        lemma_toggled_choice(buttons, before, at, buttons.len() as int);
        before.update(at, !before[at])
    }
}

/// Where no button is chosen, the machine stays dark.
proof fn lemma_nothing_chosen(buttons: Seq<u16>, chosen: Seq<bool>, upto: int)
    requires
        0 <= upto <= chosen.len(),
        forall|i: int| 0 <= i < chosen.len() ==> !chosen[i],
    ensures
        shown_by(buttons, chosen, upto) == 0,
        count_chosen(chosen, upto) == 0,
    decreases upto,
{
    if upto > 0 {
        lemma_nothing_chosen(buttons, chosen, upto - 1);
    }
}

/// The fewest presses that show a pattern press as many buttons as the smallest choice of
/// buttons that shows it, each button once: no button need be pressed twice.
pub proof fn lemma_fewest_is_smallest_choice(buttons: Seq<u16>, target: u16, n: nat)
    requires
        is_fewest(buttons, target, n),
    ensures
        is_smallest_choice(buttons, target, n),
{
    let len = buttons.len() as int;
    assert forall|chosen: Seq<bool>| #[trigger] shows(buttons, chosen, target) implies n
        <= count_chosen(chosen, len) by {
        lemma_choice_is_pressed(buttons, chosen, len);
        let pressed = presses_of(chosen, len);
        assert(state_after(buttons, pressed) == target);
        assert(reachable_in(buttons, pressed.len(), target));
    }
    let presses = choose|presses: Seq<int>|
        #![trigger state_after(buttons, presses)]
        presses.len() == n && valid_presses(buttons, presses) && state_after(buttons, presses)
            == target;
    let chosen = lemma_presses_are_a_choice(buttons, presses);
    assert(shows(buttons, chosen, target));
    assert(count_chosen(chosen, len) == n);
}

/// A pattern that no presses show, no choice of buttons shows.
pub proof fn lemma_never_reached_is_never_shown(buttons: Seq<u16>, target: u16)
    requires
        never_reached(buttons, target),
    ensures
        never_shown(buttons, target),
{
    assert forall|chosen: Seq<bool>| !#[trigger] shows(buttons, chosen, target) by {
        if shows(buttons, chosen, target) {
            lemma_choice_is_pressed(buttons, chosen, buttons.len() as int);
            let pressed = presses_of(chosen, buttons.len() as int);
            assert(state_after(buttons, pressed) == target);
            assert(reachable_in(buttons, pressed.len(), target));
        }
    }
}

/// Some entry of the queue holds `s` with a count of at most `bound`.
spec fn queued(queue: Seq<(u16, usize)>, s: u16, bound: nat) -> bool {
    exists|i: int| 0 <= i < queue.len() && (#[trigger] queue[i]).0 == s && queue[i].1 <= bound
}

/// Every entry's state is as many steps away as its count says.
spec fn entries_reached(masks: Set<u16>, queue: Seq<(u16, usize)>) -> bool {
    forall|i: int| 0 <= i < queue.len() ==> steps(masks, (#[trigger] queue[i]).1 as nat, queue[i].0)
}

/// The counts never fall along the queue.
spec fn counts_ascend(queue: Seq<(u16, usize)>) -> bool {
    forall|i: int, j: int| 0 <= i <= j < queue.len() ==> (#[trigger] queue[i]).1 <= (#[trigger] queue[j]).1
}

/// The state that mask `m` leads to from `v` is seen already, or queued with a count no
/// greater than one more than any number of steps that lead to `v`.
spec fn child_known(
    masks: Set<u16>,
    seen: Set<u16>,
    queue: Seq<(u16, usize)>,
    v: u16,
    m: u16,
) -> bool {
    forall|k: nat| #[trigger] steps(masks, k, v) ==> seen.contains(v ^ m) || queued(queue, v ^ m, k + 1)
}

/// What holds of the seen states and the queue between two rounds of the search.
spec fn search_inv(masks: Set<u16>, seen: Set<u16>, queue: Seq<(u16, usize)>) -> bool {
    &&& entries_reached(masks, queue)
    &&& counts_ascend(queue)
    &&& forall|i: int| 0 <= i < queue.len() ==> (#[trigger] queue[i]).1 <= queue[0].1 + 1
    &&& seen.contains(0u16) || queued(queue, 0u16, 0)
    &&& forall|v: u16, m: u16| #[trigger]
        seen.contains(v) && #[trigger] masks.contains(m) ==> child_known(masks, seen, queue, v, m)
}

/// What holds while the children of `s0`, taken from the queue with count `n0`, are being
/// queued: those of the first `done` buttons are.
spec fn visiting(
    masks: Set<u16>,
    seen: Set<u16>,
    queue: Seq<(u16, usize)>,
    s0: u16,
    n0: usize,
    buttons: Seq<u16>,
    done: int,
) -> bool {
    &&& entries_reached(masks, queue)
    &&& counts_ascend(queue)
    &&& forall|i: int| 0 <= i < queue.len() ==> n0 <= (#[trigger] queue[i]).1 <= n0 + 1
    &&& seen.contains(0u16) || queued(queue, 0u16, 0)
    &&& seen.contains(s0)
    &&& steps(masks, n0 as nat, s0)
    &&& forall|k: nat| #[trigger] steps(masks, k, s0) ==> n0 <= k
    &&& forall|v: u16, m: u16| #[trigger]
        seen.contains(v) && v != s0 && #[trigger] masks.contains(m) ==> child_known(
            masks,
            seen,
            queue,
            v,
            m,
        )
    &&& forall|i: int| 0 <= i < done ==> child_known(masks, seen, queue, s0, #[trigger] buttons[i])
}

/// An unseen state that is `k` steps away has the front of the queue at a count of at most `k`.
proof fn lemma_frontier(masks: Set<u16>, seen: Set<u16>, queue: Seq<(u16, usize)>, k: nat, s: u16)
    requires
        search_inv(masks, seen, queue),
        steps(masks, k, s),
        !seen.contains(s),
    ensures
        queue.len() > 0,
        queue[0].1 <= k,
    decreases k,
{
    if k == 0 {
        assert(queued(queue, 0u16, 0));
    } else {
        let m = choose|m: u16| #[trigger] masks.contains(m) && steps(masks, (k - 1) as nat, s ^ m);
        let p = s ^ m;
        if seen.contains(p) {
            lemma_xor_twice(s, m);
            assert(child_known(masks, seen, queue, p, m));
            assert(queued(queue, s, k));
        } else {
            lemma_frontier(masks, seen, queue, (k - 1) as nat, p);
        }
    }
}

/// An entry that was queued is either the front or still queued behind it.
proof fn lemma_queued_behind(queue: Seq<(u16, usize)>, s: u16, bound: nat)
    requires
        queued(queue, s, bound),
    ensures
        queue[0].0 == s || queued(queue.subrange(1, queue.len() as int), s, bound),
{
    let i = choose|i: int| 0 <= i < queue.len() && (#[trigger] queue[i]).0 == s && queue[i].1 <= bound;
    let rest = queue.subrange(1, queue.len() as int);
    if i > 0 {
        assert(rest[i - 1] == queue[i]);
    }
}

/// An entry that was queued stays queued when another is pushed.
proof fn lemma_queued_push(queue: Seq<(u16, usize)>, entry: (u16, usize), s: u16, bound: nat)
    requires
        queued(queue, s, bound),
    ensures
        queued(queue.push(entry), s, bound),
{
    let i = choose|i: int| 0 <= i < queue.len() && (#[trigger] queue[i]).0 == s && queue[i].1 <= bound;
    assert(queue.push(entry)[i] == queue[i]);
}

/// Dropping a front entry whose state is seen already keeps the search's invariant.
proof fn lemma_skip_seen(masks: Set<u16>, seen: Set<u16>, queue: Seq<(u16, usize)>)
    requires
        search_inv(masks, seen, queue),
        queue.len() > 0,
        seen.contains(queue[0].0),
    ensures
        search_inv(masks, seen, queue.subrange(1, queue.len() as int)),
{
    let rest = queue.subrange(1, queue.len() as int);
    assert forall|i: int| 0 <= i < rest.len() implies steps(
        masks,
        (#[trigger] rest[i]).1 as nat,
        rest[i].0,
    ) by {
        assert(rest[i] == queue[i + 1]);
    }
    assert forall|i: int, j: int| 0 <= i <= j < rest.len() implies (#[trigger] rest[i]).1 <= (
    #[trigger] rest[j]).1 by {
        assert(rest[i] == queue[i + 1]);
        assert(rest[j] == queue[j + 1]);
    }
    assert forall|i: int| 0 <= i < rest.len() implies (#[trigger] rest[i]).1 <= rest[0].1 + 1 by {
        assert(rest[i] == queue[i + 1]);
        assert(rest[0] == queue[1]);
        assert(queue[0].1 <= queue[1].1);
    }
    if !seen.contains(0u16) {
        lemma_queued_behind(queue, 0u16, 0);
    }
    assert forall|v: u16, m: u16| #[trigger]
        seen.contains(v) && #[trigger] masks.contains(m) implies child_known(
        masks,
        seen,
        rest,
        v,
        m,
    ) by {
        assert(child_known(masks, seen, queue, v, m));
        assert forall|k: nat| #[trigger] steps(masks, k, v) implies seen.contains(v ^ m) || queued(
            rest,
            v ^ m,
            k + 1,
        ) by {
            if !seen.contains(v ^ m) {
                lemma_queued_behind(queue, v ^ m, k + 1);
            }
        }
    }
}

/// Taking an unseen state from the front of the queue and marking it seen starts a visit.
proof fn lemma_begin_visit(
    masks: Set<u16>,
    seen: Set<u16>,
    queue: Seq<(u16, usize)>,
    buttons: Seq<u16>,
)
    requires
        search_inv(masks, seen, queue),
        queue.len() > 0,
        !seen.contains(queue[0].0),
    ensures
        visiting(
            masks,
            seen.insert(queue[0].0),
            queue.subrange(1, queue.len() as int),
            queue[0].0,
            queue[0].1,
            buttons,
            0,
        ),
{
    let s0 = queue[0].0;
    let n0 = queue[0].1;
    let rest = queue.subrange(1, queue.len() as int);
    let seen2 = seen.insert(s0);
    assert forall|i: int| 0 <= i < rest.len() implies steps(
        masks,
        (#[trigger] rest[i]).1 as nat,
        rest[i].0,
    ) by {
        assert(rest[i] == queue[i + 1]);
    }
    assert forall|i: int, j: int| 0 <= i <= j < rest.len() implies (#[trigger] rest[i]).1 <= (
    #[trigger] rest[j]).1 by {
        assert(rest[i] == queue[i + 1]);
        assert(rest[j] == queue[j + 1]);
    }
    assert forall|i: int| 0 <= i < rest.len() implies n0 <= (#[trigger] rest[i]).1 <= n0 + 1 by {
        assert(rest[i] == queue[i + 1]);
        assert(queue[0].1 <= queue[i + 1].1);
    }
    if !seen2.contains(0u16) {
        lemma_queued_behind(queue, 0u16, 0);
    }
    assert forall|k: nat| #[trigger] steps(masks, k, s0) implies n0 <= k by {
        lemma_frontier(masks, seen, queue, k, s0);
    }
    assert forall|v: u16, m: u16| #[trigger]
        seen2.contains(v) && v != s0 && #[trigger] masks.contains(m) implies child_known(
        masks,
        seen2,
        rest,
        v,
        m,
    ) by {
        assert(seen.contains(v));
        assert(child_known(masks, seen, queue, v, m));
        assert forall|k: nat| #[trigger] steps(masks, k, v) implies seen2.contains(v ^ m)
            || queued(rest, v ^ m, k + 1) by {
            if !seen.contains(v ^ m) {
                lemma_queued_behind(queue, v ^ m, k + 1);
            }
        }
    }
}

/// Queueing the child that the next button leads to carries the visit one button further.
proof fn lemma_push_child(
    masks: Set<u16>,
    seen: Set<u16>,
    queue: Seq<(u16, usize)>,
    s0: u16,
    n0: usize,
    buttons: Seq<u16>,
    done: int,
)
    requires
        visiting(masks, seen, queue, s0, n0, buttons, done),
        0 <= done < buttons.len(),
        masks == buttons.to_set(),
        n0 < usize::MAX,
    ensures
        visiting(
            masks,
            seen,
            queue.push((s0 ^ buttons[done], (n0 + 1) as usize)),
            s0,
            n0,
            buttons,
            done + 1,
        ),
{
    let b = buttons[done];
    let entry = (s0 ^ b, (n0 + 1) as usize);
    let after = queue.push(entry);
    assert(masks.contains(b));
    lemma_xor_twice(s0, b);
    assert(steps(masks, (n0 + 1) as nat, s0 ^ b));
    assert forall|i: int| 0 <= i < after.len() implies steps(
        masks,
        (#[trigger] after[i]).1 as nat,
        after[i].0,
    ) by {
        if i < queue.len() {
            assert(after[i] == queue[i]);
        }
    }
    assert forall|i: int| 0 <= i < after.len() implies n0 <= (#[trigger] after[i]).1 <= n0 + 1 by {
        if i < queue.len() {
            assert(after[i] == queue[i]);
        }
    }
    assert forall|i: int, j: int| 0 <= i <= j < after.len() implies (#[trigger] after[i]).1 <= (
    #[trigger] after[j]).1 by {
        if j < queue.len() {
            assert(after[i] == queue[i]);
            assert(after[j] == queue[j]);
        }
    }
    if !seen.contains(0u16) {
        lemma_queued_push(queue, entry, 0u16, 0);
    }
    assert forall|v: u16, m: u16| #[trigger]
        seen.contains(v) && v != s0 && #[trigger] masks.contains(m) implies child_known(
        masks,
        seen,
        after,
        v,
        m,
    ) by {
        assert(child_known(masks, seen, queue, v, m));
        assert forall|k: nat| #[trigger] steps(masks, k, v) implies seen.contains(v ^ m) || queued(
            after,
            v ^ m,
            k + 1,
        ) by {
            if !seen.contains(v ^ m) {
                lemma_queued_push(queue, entry, v ^ m, k + 1);
            }
        }
    }
    assert forall|i: int| 0 <= i < done + 1 implies child_known(
        masks,
        seen,
        after,
        s0,
        #[trigger] buttons[i],
    ) by {
        let m = buttons[i];
        assert forall|k: nat| #[trigger] steps(masks, k, s0) implies seen.contains(s0 ^ m)
            || queued(after, s0 ^ m, k + 1) by {
            if i < done {
                assert(child_known(masks, seen, queue, s0, m));
                if !seen.contains(s0 ^ m) {
                    lemma_queued_push(queue, entry, s0 ^ m, k + 1);
                }
            } else {
                assert(after[queue.len() as int] == entry);
            }
        }
    }
}

/// Once the children of every button are queued the visit is over.
proof fn lemma_end_visit(
    masks: Set<u16>,
    seen: Set<u16>,
    queue: Seq<(u16, usize)>,
    s0: u16,
    n0: usize,
    buttons: Seq<u16>,
)
    requires
        visiting(masks, seen, queue, s0, n0, buttons, buttons.len() as int),
        masks == buttons.to_set(),
    ensures
        search_inv(masks, seen, queue),
{
    assert forall|i: int| 0 <= i < queue.len() implies (#[trigger] queue[i]).1 <= queue[0].1 + 1 by {
        assert(n0 <= queue[0].1);
    }
    assert forall|v: u16, m: u16| #[trigger]
        seen.contains(v) && #[trigger] masks.contains(m) implies child_known(
        masks,
        seen,
        queue,
        v,
        m,
    ) by {
        if v == s0 {
            let i = choose|i: int| 0 <= i < buttons.len() && buttons[i] == m;
            assert(child_known(masks, seen, queue, s0, buttons[i]));
        }
    }
}

/// There are no more than 65536 patterns.
proof fn lemma_pattern_count(s: Set<u16>)
    ensures
        s.finite(),
        s.len() <= 65536,
{
    let numbers = set_int_range(0, 65536);
    let narrow = |i: int| i as u16;
    let every = numbers.map(narrow);
    lemma_int_range(0, 65536);
    lemma_map_size_bound(numbers, every, narrow);
    assert forall|x: u16| s.contains(x) implies every.contains(x) by {
        assert(numbers.contains(x as int));
        assert(narrow(x as int) == x);
    }
    lemma_len_subset(s, every);
}

impl Machine {
    /// The fewest button presses that turn the dark machine into its target pattern.
    ///
    /// That is the length of the shortest sequence of presses that shows the target, and
    /// also the size of the smallest choice of buttons that shows it when each is pressed
    /// once. Fails with [`MachineError::UnreachableTarget`] exactly when no sequence of
    /// presses, and so no choice of buttons, shows the target.
    pub fn fewest_presses_lights(&self) -> (r: Result<usize, MachineError>)
        ensures
            match r {
                Ok(n) => is_fewest(self@.buttons, self@.target, n as nat) && is_smallest_choice(
                    self@.buttons,
                    self@.target,
                    n as nat,
                ),
                Err(e) => e == MachineError::UnreachableTarget && never_reached(
                    self@.buttons,
                    self@.target,
                ) && never_shown(self@.buttons, self@.target),
            },
            self@.target == 0 ==> r == Ok::<usize, MachineError>(0usize),
    {
        broadcast use vstd::std_specs::hash::group_hash_axioms;

        let target = self.target();
        let buttons = self.buttons();
        let ghost masks = buttons@.to_set();
        let mut visited: HashSet<u16> = HashSet::new();
        let mut queue: VecDeque<(u16, usize)> = VecDeque::new();
        queue.push_back((0u16, 0usize));
        proof {
            assert(queue@[0] == (0u16, 0usize));
            assert(queued(queue@, 0u16, 0));
            lemma_pattern_count(visited@);
            lemma_dark_target_takes_no_press(buttons@);
        }
        loop
            invariant
                masks == buttons@.to_set(),
                buttons@ == self@.buttons,
                target == self@.target,
                search_inv(masks, visited@, queue@),
                !visited@.contains(target),
                visited@.finite(),
                visited@.len() <= 65536,
                forall|i: int| 0 <= i < queue@.len() ==> (#[trigger] queue@[i]).1 <= visited@.len(),
                is_fewest(buttons@, 0u16, 0),
            decreases 65536 - visited@.len(), queue@.len(),
        {
            let ghost before = queue@;
            let ghost seen = visited@;
            match queue.pop_front() {
                None => {
                    proof {
                        assert forall|k: nat| !reachable_in(buttons@, k, target) by {
                            if reachable_in(buttons@, k, target) {
                                let presses = choose|presses: Seq<int>|
                                    #![trigger state_after(buttons@, presses)]
                                    presses.len() == k && valid_presses(buttons@, presses)
                                        && state_after(buttons@, presses) == target;
                                lemma_presses_are_steps(buttons@, presses);
                                lemma_frontier(masks, seen, before, k, target);
                            }
                        }
                    }
                    proof {
                        lemma_never_reached_is_never_shown(buttons@, target);
                    }
                    return Err(MachineError::UnreachableTarget);
                },
                Some((state, n)) => {
                    assert(before[0] == (state, n));
                    assert(queue@ == before.subrange(1, before.len() as int));
                    if visited.contains(&state) {
                        proof {
                            lemma_skip_seen(masks, seen, before);
                            assert forall|i: int| 0 <= i < queue@.len() implies (
                            #[trigger] queue@[i]).1 <= visited@.len() by {
                                assert(queue@[i] == before[i + 1]);
                            }
                        }
                        continue ;
                    }
                    if state == target {
                        proof {
                            lemma_steps_are_presses(buttons@, n as nat, target);
                            assert forall|k: nat| k < n implies !reachable_in(
                                buttons@,
                                k,
                                target,
                            ) by {
                                if reachable_in(buttons@, k, target) {
                                    let presses = choose|presses: Seq<int>|
                                        #![trigger state_after(buttons@, presses)]
                                        presses.len() == k && valid_presses(buttons@, presses)
                                            && state_after(buttons@, presses) == target;
                                    lemma_presses_are_steps(buttons@, presses);
                                    lemma_frontier(masks, seen, before, k, target);
                                }
                            }
                        }
                        proof {
                            lemma_fewest_is_smallest_choice(buttons@, target, n as nat);
                        }
                        return Ok(n);
                    }
                    visited.insert(state);
                    proof {
                        lemma_begin_visit(masks, seen, before, buttons@);
                        lemma_pattern_count(visited@);
                        assert forall|i: int| 0 <= i < queue@.len() implies (
                        #[trigger] queue@[i]).1 <= visited@.len() by {
                            assert(queue@[i] == before[i + 1]);
                        }
                    }
                    let mut j: usize = 0;
                    while j < buttons.len()
                        invariant
                            j <= buttons.len(),
                            masks == buttons@.to_set(),
                            visiting(masks, visited@, queue@, state, n, buttons@, j as int),
                            n < visited@.len() <= 65536,
                            forall|i: int|
                                0 <= i < queue@.len() ==> (#[trigger] queue@[i]).1
                                    <= visited@.len(),
                        decreases buttons.len() - j,
                    {
                        let ghost grown = queue@;
                        queue.push_back((state ^ buttons[j], n + 1));
                        proof {
                            lemma_push_child(masks, visited@, grown, state, n, buttons@, j as int);
                            assert forall|i: int| 0 <= i < queue@.len() implies (
                            #[trigger] queue@[i]).1 <= visited@.len() by {
                                if i < grown.len() {
                                    assert(queue@[i] == grown[i]);
                                }
                            }
                        }
                        j += 1;
                    }
                    proof {
                        lemma_end_visit(masks, visited@, queue@, state, n, buttons@);
                    }
                },
            }
        }
    }
}

} // verus!
