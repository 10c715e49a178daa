use aoc_2025::day06::{product, solution_part1, solution_part2, total, work_column};

const TEST_INPUT: &str = "123 328  51 64 \n 45 64  387 23 \n  6 98  215 314\n*   +   *   +  \n";

#[test]
fn day06_test_part_1() {
    assert_eq!(Some(4277556), solution_part1(TEST_INPUT));
}

#[test]
fn day06_test_part_2() {
    assert_eq!(Some(3263827), solution_part2(TEST_INPUT));
}

#[test]
fn columns_are_worked() {
    let nums = vec![vec![123, 328], vec![45, 64], vec![6, 98]];
    assert_eq!(work_column(&nums, b'*', 0), Some(33210));
    assert_eq!(work_column(&nums, b'+', 1), Some(490));
    assert_eq!(work_column(&nums, b'+', 2), None);
    assert_eq!(work_column(&nums, b'-', 0), None);
    assert_eq!(work_column(&vec![vec![5]], b'-', 0), Some(5));
    assert_eq!(work_column(&vec![], b'+', 0), None);
    assert_eq!(work_column(&vec![vec![u64::MAX], vec![1]], b'+', 0), None);
    assert_eq!(work_column(&vec![vec![u64::MAX], vec![2], vec![0]], b'*', 0), None);
}

#[test]
fn products_and_sums_stay_in_range() {
    assert_eq!(product(&vec![]), Some(1));
    assert_eq!(product(&vec![4, 431, 623]), Some(1074052));
    assert_eq!(product(&vec![u64::MAX, 2]), None);
    assert_eq!(total(&vec![]), Some(0));
    assert_eq!(total(&vec![4, 431, 623]), Some(1058));
    assert_eq!(total(&vec![u64::MAX, 1]), None);
}

#[test]
fn worksheets_that_cannot_be_worked() {
    assert_eq!(solution_part1(""), None);
    assert_eq!(solution_part1("1 2\n3 x\n+ +\n"), None);
    assert_eq!(solution_part1("1 2\n3\n+ +\n"), None);
    assert_eq!(solution_part1("1 2\n3 4\n+ -\n"), None);
    assert_eq!(solution_part1("+ *\n"), None);
    assert_eq!(solution_part1("1 2\n3 4\n+\n"), Some(4));
    assert_eq!(solution_part1("7 8\n? *\n"), Some(15));
    assert_eq!(solution_part2(""), None);
    assert_eq!(solution_part2("12\n3\n+ \n"), None);
    assert_eq!(solution_part2("+\n"), Some(0));
    assert_eq!(solution_part2("12\n34\n+ \n"), Some(37));
    assert_eq!(solution_part2("12\n34\n* \n"), Some(312));
    assert_eq!(solution_part2("12\n34\n  \n"), Some(0));
}
