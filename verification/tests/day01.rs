use aoc_2025::day01::{parse_rotation, process_lock_part1, process_lock_part2, solution, Part};

const TEST_INPUT: &str = "L68
L30
R48
L5
R60
L55
L1
L99
R14
L82
";

#[test]
fn day01_test_part_1() {
    assert_eq!(Some(3), solution(TEST_INPUT, Part::One));
}

#[test]
fn day01_test_part_2() {
    assert_eq!(Some(6), solution(TEST_INPUT, Part::Two));
}

#[test]
fn one_rotation_stops_at_zero_or_not() {
    assert_eq!(process_lock_part1("L", 68, 50, 0), (82, 0));
    assert_eq!(process_lock_part1("R", 48, 52, 0), (0, 1));
    assert_eq!(process_lock_part1("L", 55, 55, 7), (0, 8));
    assert_eq!(process_lock_part1("R", 250, 50, 0), (0, 1));
    assert_eq!(process_lock_part1("L", 1, 0, 0), (99, 0));
    assert_eq!(process_lock_part1("R", 0, 0, 4), (0, 5));
}

#[test]
fn one_rotation_clicks_past_zero() {
    assert_eq!(process_lock_part2("L", 68, 50, 0), (82, 1));
    assert_eq!(process_lock_part2("L", 30, 82, 1), (52, 1));
    assert_eq!(process_lock_part2("R", 48, 52, 1), (0, 2));
    assert_eq!(process_lock_part2("L", 5, 0, 2), (95, 2));
    assert_eq!(process_lock_part2("R", 1000, 50, 0), (50, 10));
    assert_eq!(process_lock_part2("L", 150, 50, 0), (0, 2));
    assert_eq!(process_lock_part2("L", 100, 0, 0), (0, 1));
    assert_eq!(process_lock_part2("R", 100, 0, 0), (0, 1));
    assert_eq!(process_lock_part2("L", 0, 0, 0), (0, 1));
    assert_eq!(process_lock_part2("R", 0, 7, 0), (7, 0));
}

#[test]
fn clicks_agree_with_counting_them() {
    for position in 0..100 {
        for turns in 1..350 {
            for (direction, step) in [("L", -1i32), ("R", 1i32)] {
                let clicks = (1..=turns).filter(|k| (position + step * k).rem_euclid(100) == 0).count();
                let got = process_lock_part2(direction, turns, position, 0);
                assert_eq!(got, ((position + step * turns).rem_euclid(100), clicks as u64));
            }
        }
    }
}

#[test]
fn rotations_are_read() {
    assert_eq!(parse_rotation(b"L68"), Some((true, 68)));
    assert_eq!(parse_rotation(b"R0"), Some((false, 0)));
    assert_eq!(parse_rotation(b"R2147483647"), Some((false, i32::MAX)));
    assert_eq!(parse_rotation(b"R2147483648"), None);
    assert_eq!(parse_rotation(b"L"), None);
    assert_eq!(parse_rotation(b"X5"), None);
    assert_eq!(parse_rotation(b"L-5"), None);
    assert_eq!(parse_rotation(b""), None);
}

#[test]
fn lists_that_cannot_be_followed_give_no_count() {
    assert_eq!(solution("L68\nU30\n", Part::One), None);
    assert_eq!(solution("L68\n\nR3\n", Part::Two), None);
    assert_eq!(solution("R2147483647\n", Part::One), None);
    assert_eq!(solution("L2147483647\n", Part::One), Some(0));
    assert_eq!(solution("", Part::Two), Some(0));
    assert_eq!(solution("R50\r\nL100", Part::Two), Some(2));
}
