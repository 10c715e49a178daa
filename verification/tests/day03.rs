use aoc_2025::day03::{max_joltage_part2, max_joltage_twopasses_part1, solution_part1, solution_part2};

const TEST_INPUT: &str = "987654321111111
811111111111119
234234234234278
818181911112111
";

#[test]
fn day03_test_part_1() {
    assert_eq!(Some(357), solution_part1(TEST_INPUT));
}

#[test]
fn day03_test_part_2() {
    assert_eq!(Some(3121910778619), solution_part2(TEST_INPUT));
}

#[test]
fn two_batteries_of_each_bank() {
    assert_eq!(max_joltage_twopasses_part1(b"987654321111111"), 98);
    assert_eq!(max_joltage_twopasses_part1(b"811111111111119"), 89);
    assert_eq!(max_joltage_twopasses_part1(b"234234234234278"), 78);
    assert_eq!(max_joltage_twopasses_part1(b"818181911112111"), 92);
}

#[test]
fn two_batteries_at_the_edges() {
    assert_eq!(max_joltage_twopasses_part1(b"5"), 0);
    assert_eq!(max_joltage_twopasses_part1(b"19"), 19);
    assert_eq!(max_joltage_twopasses_part1(b"91"), 91);
    assert_eq!(max_joltage_twopasses_part1(b"a5"), 5);
    assert_eq!(max_joltage_twopasses_part1(b"5a"), 50);
    assert_eq!(max_joltage_twopasses_part1(b"ab0cd0e5"), 5);
    assert_eq!(max_joltage_twopasses_part1(b"0909"), 99);
    assert_eq!(max_joltage_twopasses_part1(b"xyz"), 0);
}

#[test]
fn twelve_batteries_of_each_bank() {
    assert_eq!(max_joltage_part2(b"987654321111111"), 987654321111);
    assert_eq!(max_joltage_part2(b"811111111111119"), 811111111119);
    assert_eq!(max_joltage_part2(b"234234234234278"), 434234234278);
    assert_eq!(max_joltage_part2(b"818181911112111"), 888911112111);
    assert_eq!(max_joltage_part2(b"123456789012"), 123456789012);
    assert_eq!(max_joltage_part2(b"1a2b3c4d5e6f7g8h9i0j1k2l3"), 234567890123);
}

#[test]
fn twelve_batteries_agree_with_exhaustive_search() {
    fn best(digits: &[u8], count: usize) -> u64 {
        if count == 0 {
            return 0;
        }
        let mut most = 0;
        for i in 0..=digits.len() - count {
            let rest = best(&digits[i + 1..], count - 1);
            most = most.max((digits[i] - b'0') as u64 * 10u64.pow(count as u32 - 1) + rest);
        }
        most
    }
    for bank in ["9182736455463", "11111111111119", "56473829105647", "90909090909090"] {
        assert_eq!(max_joltage_part2(bank.as_bytes()), best(bank.as_bytes(), 12));
    }
}

#[test]
fn banks_that_are_too_small_give_no_sum() {
    assert_eq!(solution_part1("12\n\n34\n"), None);
    assert_eq!(solution_part1(""), Some(0));
    assert_eq!(solution_part1("12\r\n34"), Some(46));
    assert_eq!(solution_part2("987654321111111\n12345678901\n"), None);
    assert_eq!(solution_part2(""), Some(0));
}
