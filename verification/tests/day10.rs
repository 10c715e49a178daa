use aoc_2025::day10::batch::{solution, sum_results};
use aoc_2025::day10::bits::{get_bit, set_bit, to_indices};
use aoc_2025::day10::decode::{input_generator, parse_machine};
use aoc_2025::day10::machine::{Machine, MachineError};
use aoc_2025::day10::solver::SolverStatus;

const EXAMPLE: &str = "[.##.] (3) (1,3) (2) (2,3) (0,2) (0,1) {3,5,4,7}
[...#.] (0,2,3,4) (2,3) (0,4) (0,1,2) (1,2,3,4) {7,5,12,7,2}
[.###.#] (0,1,2,3,4) (0,3,4) (0,1,2,4,5) (1,2) {10,11,11,5,10,5}
";

/// The fewest presses found by trying every sequence of presses, shortest first.
fn brute_force_lights(target: u16, buttons: &[u16]) -> Option<usize> {
    let mut states = vec![0u16];
    let mut seen = std::collections::HashSet::new();
    seen.insert(0u16);
    let mut depth = 0;
    loop {
        if states.contains(&target) {
            return Some(depth);
        }
        let mut next = Vec::new();
        for s in &states {
            for b in buttons {
                if seen.insert(s ^ b) {
                    next.push(s ^ b);
                }
            }
        }
        if next.is_empty() {
            return None;
        }
        states = next;
        depth += 1;
    }
}

/// The least total of press counts that meet every target, by trying all counts.
fn brute_force_cover(buttons: &[u16], joltage: &[usize]) -> Option<usize> {
    fn go(buttons: &[u16], left: &mut Vec<usize>, b: usize, best: &mut Option<usize>, used: usize) {
        if b == buttons.len() {
            if left.iter().all(|&x| x == 0) && best.map_or(true, |m| used < m) {
                *best = Some(used);
            }
            return;
        }
        let covered: Vec<usize> = (0..left.len()).filter(|&p| p < 16 && buttons[b] >> p & 1 == 1).collect();
        let most = covered.iter().map(|&p| left[p]).min().unwrap_or(0);
        for count in 0..=most {
            for &p in &covered {
                left[p] -= count;
            }
            go(buttons, left, b + 1, best, used + count);
            for &p in &covered {
                left[p] += count;
            }
        }
    }
    let mut best = None;
    go(buttons, &mut joltage.to_vec(), 0, &mut best, 0);
    best
}

#[test]
fn test_part_1() {
    assert_eq!(solution(Machine::fewest_presses_lights, &input_generator(EXAMPLE).unwrap()), Ok(7));
}

#[test]
fn test_part_2() {
    assert_eq!(solution(Machine::fewest_presses_joltage, &input_generator(EXAMPLE).unwrap()), Ok(33));
}

#[test]
fn decodes_the_example() {
    let machines = input_generator(EXAMPLE).unwrap();
    assert_eq!(machines.len(), 3);
    assert_eq!(machines[0].target(), 0b0110);
    assert_eq!(machines[0].buttons(), &vec![8u16, 10, 4, 12, 5, 3]);
    assert_eq!(machines[0].joltage(), &vec![3usize, 5, 4, 7]);
    assert_eq!(machines[2].target(), 0b101110);
    assert_eq!(machines[2].joltage(), &vec![10usize, 11, 11, 5, 10, 5]);
}

#[test]
fn decodes_without_a_last_line_feed_and_with_carriage_returns() {
    let machines = input_generator("[#.] (0) (1)\r\n[.#] (0,1) {4,4}").unwrap();
    assert_eq!(machines.len(), 2);
    assert_eq!(machines[0].target(), 1);
    assert_eq!(machines[0].joltage().len(), 0);
    assert_eq!(machines[1].buttons(), &vec![3u16]);
    assert_eq!(input_generator("").unwrap().len(), 0);
}

#[test]
fn malformed_records_are_refused() {
    let malformed = |line, token| Err::<Vec<Machine>, _>(MachineError::MalformedRecord { line, token });
    assert_eq!(input_generator("[#.] (0)\n(0) [#.]").err(), malformed(1, 0).err());
    assert_eq!(input_generator("[#x] (0)").err(), malformed(0, 0).err());
    assert_eq!(input_generator("[#.] <0>").err(), malformed(0, 1).err());
    assert_eq!(input_generator("[#.] (0) (a)").err(), malformed(0, 2).err());
    assert_eq!(input_generator("[#.] (0,)").err(), malformed(0, 1).err());
    assert_eq!(input_generator("[#.] ()").err(), malformed(0, 1).err());
    assert_eq!(input_generator("[#.] (0) {1} {2}").err(), malformed(0, 3).err());
    assert_eq!(input_generator("[#.] (0\n").err(), malformed(0, 1).err());
    assert_eq!(input_generator("[#.] (0)\n\n[#.] (0)").err(), malformed(1, 0).err());
    assert_eq!(input_generator("[.................] (0)").err(), malformed(0, 0).err());
    assert_eq!(
        input_generator("[#.] {99999999999999999999999999}").err(),
        malformed(0, 1).err()
    );
}

#[test]
fn indices_beyond_the_width_are_refused() {
    assert_eq!(
        input_generator("[#.] (0) (1,2)").err(),
        Some(MachineError::IndexOutOfRange { line: 0, token: 2 })
    );
    assert_eq!(
        input_generator("[#.] (0)\n[#.] {1,2,3}").err(),
        Some(MachineError::IndexOutOfRange { line: 1, token: 1 })
    );
    assert_eq!(
        parse_machine(b"[#] (16)", 7).err(),
        Some(MachineError::IndexOutOfRange { line: 7, token: 1 })
    );
}

#[test]
fn bits_are_set_and_listed() {
    assert_eq!(set_bit(0, 3), 8);
    assert_eq!(set_bit(8, 0), 9);
    assert_eq!(set_bit(9, 15), 0x8009);
    assert!(get_bit(0x8009, 15));
    assert!(!get_bit(0x8009, 1));
    assert!(!get_bit(0xffff, 16));
    assert_eq!(to_indices(0x8009), vec![0, 3, 15]);
    assert_eq!(to_indices(0), Vec::<usize>::new());
}

#[test]
fn lights_of_the_example() {
    let machines = input_generator(EXAMPLE).unwrap();
    let presses: Vec<usize> = machines.iter().map(|m| m.fewest_presses_lights().unwrap()).collect();
    assert_eq!(presses, vec![2, 3, 2]);
}

#[test]
fn dark_target_takes_no_press() {
    assert_eq!(Machine::new(0, vec![1, 2, 4], vec![]).fewest_presses_lights(), Ok(0));
    assert_eq!(Machine::new(0, vec![], vec![]).fewest_presses_lights(), Ok(0));
}

#[test]
fn two_single_light_buttons_take_two_presses() {
    let m = Machine::new(0b101, vec![0b001, 0b100], vec![]);
    assert_eq!(m.fewest_presses_lights(), Ok(2));
}

#[test]
fn button_order_does_not_matter() {
    let a = Machine::new(0b0110, vec![8, 10, 4, 12, 5, 3], vec![]);
    let b = Machine::new(0b0110, vec![3, 5, 12, 4, 10, 8, 8], vec![]);
    assert_eq!(a.fewest_presses_lights(), b.fewest_presses_lights());
}

#[test]
fn unreachable_target_is_reported() {
    let m = Machine::new(0b10, vec![0b01], vec![]);
    assert_eq!(m.fewest_presses_lights(), Err(MachineError::UnreachableTarget));
    assert_eq!(Machine::new(1, vec![], vec![]).fewest_presses_lights(), Err(MachineError::UnreachableTarget));
}

#[test]
fn lights_agree_with_exhaustive_search() {
    let mut seed: u32 = 12345;
    let mut next = || {
        seed = seed.wrapping_mul(1664525).wrapping_add(1013904223);
        (seed >> 8) as u16
    };
    for _ in 0..60 {
        let width = 1 + next() % 10;
        let mask = (1u16 << width) - 1;
        let buttons: Vec<u16> = (0..next() % 7).map(|_| next() & mask).collect();
        let target = next() & mask;
        let expected = brute_force_lights(target, &buttons);
        let got = Machine::new(target, buttons, vec![]).fewest_presses_lights();
        assert_eq!(got.ok(), expected);
    }
}

#[test]
fn lights_agree_with_the_smallest_choice_of_buttons() {
    let mut seed: u32 = 777;
    let mut next = || {
        seed = seed.wrapping_mul(1664525).wrapping_add(1013904223);
        (seed >> 8) as u16
    };
    for _ in 0..80 {
        let buttons: Vec<u16> = (0..next() % 7).map(|_| next()).collect();
        let target = if next() % 2 == 0 { next() } else { buttons.iter().step_by(2).fold(0, |s, b| s ^ b) };
        let smallest = (0u32..1 << buttons.len())
            .filter(|mask| {
                let shown = (0..buttons.len()).filter(|i| mask >> i & 1 == 1).fold(0, |s, i| s ^ buttons[i]);
                shown == target
            })
            .map(|mask| mask.count_ones() as usize)
            .min();
        let got = Machine::new(target, buttons, vec![]).fewest_presses_lights();
        assert_eq!(got.ok(), smallest);
    }
}

#[test]
fn joltage_of_the_example() {
    let machines = input_generator(EXAMPLE).unwrap();
    let presses: Vec<usize> = machines.iter().map(|m| m.fewest_presses_joltage().unwrap()).collect();
    assert_eq!(presses, vec![10, 12, 11]);
}

#[test]
fn joltage_within_a_budget() {
    let machines = input_generator(EXAMPLE).unwrap();
    let presses: Vec<usize> =
        machines.iter().map(|m| m.fewest_presses_joltage_within(60_000).unwrap()).collect();
    assert_eq!(presses, vec![10, 12, 11]);
    let stranded = Machine::new(0, vec![0b01], vec![2, 1]);
    assert_eq!(stranded.fewest_presses_joltage_within(1), Err(MachineError::InfeasibleCover));
}

#[test]
fn shared_button_gives_the_cheaper_cover() {
    let m = Machine::new(0, vec![0b01, 0b10, 0b11], vec![3, 5]);
    assert_eq!(m.fewest_presses_joltage(), Ok(5));
    assert_eq!(m.check_cover(&vec![3, 5, 0]), Some(8));
    assert_eq!(m.check_cover(&vec![0, 2, 3]), Some(5));
    assert_eq!(m.check_cover(&vec![0, 2, 2]), None);
    assert_eq!(m.check_cover(&vec![0, 2]), None);
}

#[test]
fn stranded_counter_is_infeasible() {
    let m = Machine::new(0, vec![0b01], vec![2, 1]);
    assert!(m.stranded_counter());
    assert_eq!(m.fewest_presses_joltage(), Err(MachineError::InfeasibleCover));
    let none = Machine::new(0, vec![], vec![0, 1]);
    assert_eq!(none.fewest_presses_joltage(), Err(MachineError::InfeasibleCover));
}

#[test]
fn contradicting_counters_are_infeasible() {
    let m = Machine::new(0, vec![0b11], vec![1, 2]);
    assert!(!m.stranded_counter());
    assert_eq!(m.fewest_presses_joltage(), Err(MachineError::InfeasibleCover));
}

#[test]
fn counters_at_zero_take_no_press() {
    assert_eq!(Machine::new(0, vec![], vec![0, 0]).fewest_presses_joltage(), Ok(0));
    assert_eq!(Machine::new(0, vec![], vec![]).fewest_presses_joltage(), Ok(0));
    assert_eq!(Machine::new(0, vec![1, 2], vec![]).fewest_presses_joltage(), Ok(0));
    assert_eq!(Machine::new(0, vec![1, 2, 3], vec![0, 0]).fewest_presses_joltage(), Ok(0));
    assert!(Machine::new(0, vec![1], vec![0, 0]).targets_at_zero());
    assert!(!Machine::new(0, vec![1], vec![0, 1]).targets_at_zero());
}

#[test]
fn a_button_that_covers_nothing_is_not_pressed() {
    let m = Machine::new(0, vec![0, 0b1, 0b10000], vec![4]);
    assert_eq!(m.fewest_presses_joltage(), Ok(4));
    assert_eq!(m.check_cover(&vec![9, 4, 9]), Some(22));
}

#[test]
fn rows_list_the_buttons_of_each_counter() {
    let machines = input_generator(EXAMPLE).unwrap();
    assert_eq!(machines[0].cover_rows(), vec![vec![4, 5], vec![1, 5], vec![2, 3, 4], vec![0, 1, 3]]);
    let m = Machine::new(0, vec![0b01, 0b10, 0b11, 0], vec![3, 5, 0]);
    assert_eq!(m.cover_rows(), vec![vec![0, 2], vec![1, 2], vec![]]);
    assert_eq!(Machine::new(0, vec![1, 2], vec![]).cover_rows(), Vec::<Vec<usize>>::new());
    assert_eq!(Machine::new(0, vec![], vec![0, 0]).cover_rows(), vec![Vec::<usize>::new(); 2]);
    let wide = Machine::new(0, vec![0xffff], vec![1; 17]);
    assert_eq!(wide.cover_rows()[15], vec![0]);
    assert_eq!(wide.cover_rows()[16], Vec::<usize>::new());
}

#[test]
fn buttons_are_converted_to_positions() {
    let m = Machine::new(0, vec![8, 10, 0], vec![]);
    assert_eq!(m.convert_buttons(), vec![vec![3], vec![1, 3], vec![]]);
    assert!(m.any_covers(1));
    assert!(!m.any_covers(0));
    assert!(!m.any_covers(16));
}

#[test]
fn covers_agree_with_exhaustive_search() {
    let mut seed: u32 = 2025;
    let mut next = || {
        seed = seed.wrapping_mul(1664525).wrapping_add(1013904223);
        (seed >> 8) as usize
    };
    for _ in 0..40 {
        let width = 1 + next() % 4;
        let mask = (1u16 << width) - 1;
        let buttons: Vec<u16> = (0..1 + next() % 4).map(|_| next() as u16 & mask).collect();
        let joltage: Vec<usize> = (0..width).map(|_| next() % 7).collect();
        let expected = brute_force_cover(&buttons, &joltage);
        let machine = Machine::new(0, buttons, joltage);
        match machine.fewest_presses_joltage() {
            Ok(n) => assert_eq!(Some(n), expected),
            Err(e) => {
                assert_eq!(e, MachineError::InfeasibleCover);
                assert_eq!(expected, None);
            }
        }
    }
}

#[test]
fn verdicts_of_the_solver_are_settled() {
    let m = Machine::new(0, vec![0b01, 0b10, 0b11], vec![3, 5]);
    assert_eq!(m.cover_outcome(SolverStatus::Unsat, None), Err(MachineError::InfeasibleCover));
    assert_eq!(m.cover_outcome(SolverStatus::Unknown, None), Err(MachineError::SolverTimeout));
    assert_eq!(m.cover_outcome(SolverStatus::Unknown, Some(vec![0, 2, 3])), Err(MachineError::SolverTimeout));
    assert_eq!(m.cover_outcome(SolverStatus::Sat, None), Err(MachineError::SolverFault));
    assert_eq!(m.cover_outcome(SolverStatus::Sat, Some(vec![1, 1, 1])), Err(MachineError::SolverFault));
    assert_eq!(m.cover_outcome(SolverStatus::Sat, Some(vec![0, 2, 3])), Ok(5));
    let wide = Machine::new(0, vec![0, 0], vec![]);
    assert_eq!(
        wide.cover_outcome(SolverStatus::Sat, Some(vec![u64::MAX, 1])),
        Err(MachineError::SolverFault)
    );
}

#[test]
fn batch_fails_with_the_first_error() {
    let machines = vec![
        Machine::new(0b11, vec![0b01, 0b10], vec![1, 1]),
        Machine::new(0b10, vec![0b01], vec![2, 1]),
        Machine::new(0b100, vec![0b001], vec![]),
    ];
    assert_eq!(solution(Machine::fewest_presses_lights, &machines), Err(MachineError::UnreachableTarget));
    assert_eq!(solution(Machine::fewest_presses_joltage, &machines), Err(MachineError::InfeasibleCover));
    assert_eq!(solution(Machine::fewest_presses_lights, &Vec::new()), Ok(0));
    assert_eq!(
        sum_results(&vec![Ok(1), Err(MachineError::SolverTimeout), Err(MachineError::InfeasibleCover)]),
        Err(MachineError::SolverTimeout)
    );
}

#[test]
fn batch_total_is_the_sum_of_its_parts() {
    let all = input_generator(EXAMPLE).unwrap();
    let first = input_generator("[.##.] (3) (1,3) (2) (2,3) (0,2) (0,1) {3,5,4,7}").unwrap();
    let rest = input_generator(
        "[...#.] (0,2,3,4) (2,3) (0,4) (0,1,2) (1,2,3,4) {7,5,12,7,2}
[.###.#] (0,1,2,3,4) (0,3,4) (0,1,2,4,5) (1,2) {10,11,11,5,10,5}",
    )
    .unwrap();
    let lights = Machine::fewest_presses_lights;
    let whole = solution(lights, &all).unwrap();
    assert_eq!(whole, solution(lights, &first).unwrap() + solution(lights, &rest).unwrap());
    let joltage = Machine::fewest_presses_joltage;
    let whole = solution(joltage, &all).unwrap();
    assert_eq!(whole, solution(joltage, &first).unwrap() + solution(joltage, &rest).unwrap());
    let within = |m: &Machine| m.fewest_presses_joltage_within(60_000);
    assert_eq!(solution(within, &all), Ok(33));
    assert_eq!(sum_results(&vec![Ok(usize::MAX), Ok(usize::MAX)]), Ok(2 * (usize::MAX as u128)));
}
