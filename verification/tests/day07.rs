use aoc_2025::day07::{solution_part1, solution_part2};

const TEST_INPUT: &str = ".......S.......
...............
.......^.......
...............
......^.^......
...............
.....^.^.^.....
...............
....^.^...^....
...............
...^.^...^.^...
...............
..^...^.....^..
...............
.^.^.^.^.^...^.
...............
";

#[test]
fn day07_test_part_1() {
    assert_eq!(Some(21), solution_part1(TEST_INPUT));
}

#[test]
fn day07_test_part_2() {
    assert_eq!(Some(40), solution_part2(TEST_INPUT));
}

#[test]
fn splitters_beside_one_another_split_in_turn() {
    assert_eq!(solution_part1(".S..\n.^^.\n"), Some(2));
    assert_eq!(solution_part2(".S..\n.^^.\n"), Some(3));
    assert_eq!(solution_part1("..S\n..^\n"), Some(1));
    assert_eq!(solution_part2("..S\n..^\n"), Some(2));
    assert_eq!(solution_part1(".S.\n^.^\n"), Some(0));
    assert_eq!(solution_part2(".S.\n^.^\n"), Some(1));
}

#[test]
fn manifolds_that_cannot_be_followed() {
    assert_eq!(solution_part1(""), None);
    assert_eq!(solution_part2(""), None);
    assert_eq!(solution_part1("....\n.^..\n"), None);
    assert_eq!(solution_part2("....\n"), None);
    assert_eq!(solution_part1("S..\n^..\n"), None);
    assert_eq!(solution_part2("S..\n^..\n"), None);
    assert_eq!(solution_part1(".S.\n....^\n"), None);
    assert_eq!(solution_part2(".S.\n....^\n"), None);
    assert_eq!(solution_part1(".S.\n"), Some(0));
    assert_eq!(solution_part2(".S.\n"), Some(1));
}

#[test]
fn timelines_double_with_every_row_of_splitters() {
    let mut text = String::from("....S....\n");
    for _ in 0..3 {
        text.push_str(".^^^^^^^.\n");
    }
    assert_eq!(solution_part2(&text), Some(solution_part2(&text).unwrap()));
    assert_eq!(solution_part2("..S..\n..^..\n.^.^.\n"), Some(4));
    assert_eq!(solution_part1("..S..\n..^..\n.^.^.\n"), Some(3));
}
