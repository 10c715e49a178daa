use aoc_2025::day04::{
    box_accum_3x3, check_grid, count_neighbor_rolls, parse_input, solution_part1, solution_part2,
};

const TEST_INPUT: &str = "..@@.@@@@.
@@@.@.@.@@
@@@@@.@.@@
@.@@@@..@.
@@.@@@@.@@
.@@@@@@@.@
.@.@.@.@@@
@.@@@.@@@@
.@@@@@@@@.
@.@.@@@.@.
";

#[test]
fn part_1() {
    let rolls = parse_input(TEST_INPUT).unwrap();
    assert!(check_grid(&rolls));
    assert_eq!(13, solution_part1(&rolls));
}

#[test]
fn part_2() {
    let mut rolls = parse_input(TEST_INPUT).unwrap();
    assert!(check_grid(&rolls));
    assert_eq!(43, solution_part2(&mut rolls));
}

#[test]
fn box_sums_of_a_small_grid() {
    let grid = vec![vec![1, 2, 3], vec![4, 5, 6], vec![7, 8, 9]];
    assert_eq!(
        box_accum_3x3(&grid),
        vec![vec![12, 21, 16], vec![27, 45, 33], vec![24, 39, 28]]
    );
    assert_eq!(box_accum_3x3(&vec![vec![7]]), vec![vec![7]]);
    assert_eq!(box_accum_3x3(&vec![vec![1, 1, 1, 1]]), vec![vec![2, 3, 3, 2]]);
    assert_eq!(box_accum_3x3(&vec![vec![7281; 3]; 3])[1][1], 65529);
    assert_eq!(box_accum_3x3(&vec![vec![7282]]), vec![vec![7282]]);
    assert_eq!(box_accum_3x3(&vec![vec![65535, 0, 0, 65535]]), vec![vec![65535, 65535, 65535, 65535]]);
}

#[test]
fn free_rolls_are_taken_at_once() {
    let mut rolls = parse_input("@@@\n@@@\n@@@\n").unwrap();
    assert_eq!(count_neighbor_rolls(&mut rolls), 4);
    assert_eq!(rolls, vec![vec![0, 1, 0], vec![1, 1, 1], vec![0, 1, 0]]);
    assert_eq!(count_neighbor_rolls(&mut rolls), 4);
    assert_eq!(rolls, vec![vec![0, 0, 0], vec![0, 1, 0], vec![0, 0, 0]]);
    assert_eq!(count_neighbor_rolls(&mut rolls), 1);
    assert_eq!(rolls, vec![vec![0; 3]; 3]);
    assert_eq!(count_neighbor_rolls(&mut rolls), 0);
    let mut again = parse_input("@@@\n@@@\n@@@\n").unwrap();
    assert_eq!(solution_part2(&mut again), 9);
}

#[test]
fn maps_are_read() {
    assert_eq!(parse_input(".@7\n@..\n"), Some(vec![vec![0, 1, 7], vec![1, 0, 0]]));
    assert_eq!(parse_input(".@\r\n@."), Some(vec![vec![0, 1], vec![1, 0]]));
    assert_eq!(parse_input(".@x\n"), None);
    assert_eq!(parse_input(""), Some(vec![]));
}

#[test]
fn grids_are_checked() {
    assert!(check_grid(&vec![vec![0, 1], vec![1, 7281]]));
    assert!(check_grid(&vec![vec![0, 7282]]));
    assert!(check_grid(&vec![vec![65535]]));
    assert!(check_grid(&vec![vec![7281; 3]; 3]));
    assert!(check_grid(&vec![vec![65535, 0, 0, 65535]]));
    assert!(!check_grid(&vec![]));
    assert!(!check_grid(&vec![vec![0, 1], vec![1]]));
    assert!(!check_grid(&vec![vec![65535, 0, 1]]));
    assert!(!check_grid(&vec![vec![40000], vec![40000]]));
    assert!(!check_grid(&vec![vec![7282; 3]; 3]));
}
