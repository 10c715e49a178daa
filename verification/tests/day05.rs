use aoc_2025::day05::{
    check_ranges, is_fresh, merge_intervals, parse_puzzle_input, solution_part1, solution_part2,
};

const TEST_INPUT: &str = "3-5\n10-14\n16-20\n12-18\n\n1\n5\n8\n11\n17\n32\n";

#[test]
fn test_merging_intervals() {
    let input: Vec<(u64, u64)> = vec![(3, 5), (10, 14), (16, 20), (12, 18)];
    let truth: Vec<(u64, u64)> = vec![(3, 5), (10, 20)];
    assert_eq!(truth, merge_intervals(input))
}

#[test]
fn day05_test_part_1() {
    let (id_ranges, ids) = parse_puzzle_input(TEST_INPUT).unwrap();
    assert_eq!(3, solution_part1(&id_ranges, &ids));
}

#[test]
fn day05_test_part_2() {
    let (id_ranges, _) = parse_puzzle_input(TEST_INPUT).unwrap();
    assert!(check_ranges(&id_ranges));
    assert_eq!(14, solution_part2(&id_ranges));
}

#[test]
fn blocks_are_read() {
    let (id_ranges, ids) = parse_puzzle_input(TEST_INPUT).unwrap();
    assert_eq!(id_ranges, vec![(3, 5), (10, 20)]);
    assert_eq!(ids, vec![1, 5, 8, 11, 17, 32]);
    assert_eq!(parse_puzzle_input("1-2\nnothing\n\n7\nx\n8\n"), Some((vec![(1, 2)], vec![7, 8])));
    assert_eq!(parse_puzzle_input("1-2\n\n"), Some((vec![(1, 2)], vec![])));
    assert_eq!(parse_puzzle_input("1-2\n3\n"), None);
    assert_eq!(parse_puzzle_input("1-x\n\n3\n"), None);
    assert_eq!(parse_puzzle_input("1-2-3\n\n3\n"), None);
    assert!(check_ranges(&vec![(1, 1), (2, 9)]));
    assert!(!check_ranges(&vec![(1, 1), (9, 2)]));
}

#[test]
fn fresh_ids_of_the_example() {
    let ranges = merge_intervals(vec![(3, 5), (10, 14), (16, 20), (12, 18)]);
    assert_eq!(3, solution_part1(&ranges, &vec![1, 5, 8, 11, 17, 32]));
    assert_eq!(14, solution_part2(&ranges));
}

#[test]
fn ranges_that_touch_are_joined_and_neighbours_are_not() {
    assert_eq!(merge_intervals(vec![(5, 7), (1, 5)]), vec![(1, 7)]);
    assert_eq!(merge_intervals(vec![(6, 7), (1, 5)]), vec![(1, 5), (6, 7)]);
    assert_eq!(merge_intervals(vec![(1, 9), (2, 3)]), vec![(1, 9)]);
    assert_eq!(merge_intervals(vec![]), vec![]);
    assert_eq!(merge_intervals(vec![(4, 4)]), vec![(4, 4)]);
}

#[test]
fn ids_at_the_ends_are_fresh() {
    let ranges = vec![(3, 5), (10, 20)];
    assert!(is_fresh(&ranges, 3));
    assert!(is_fresh(&ranges, 20));
    assert!(!is_fresh(&ranges, 9));
    assert!(!is_fresh(&ranges, 21));
    assert_eq!(solution_part2(&vec![(0, u64::MAX - 1)]), u64::MAX);
    assert_eq!(solution_part2(&vec![]), 0);
}
