use aoc_2025::day02::{
    check_invalid_id_part1, check_invalid_id_part2, decimal_digits, parse_range, solution, Part,
};

const TEST_INPUT: &str = "11-22,95-115,998-1012,1188511880-1188511890,222220-222224,\
1698522-1698528,446443-446449,38593856-38593862,565653-565659,\
824824821-824824827,2121212118-2121212124
";

#[test]
fn day02_test_part_1() {
    assert_eq!(Some(1227775554), solution(TEST_INPUT, Part::One));
}

#[test]
fn day02_test_part_2() {
    assert_eq!(Some(4174379265), solution(TEST_INPUT, Part::Two));
}

#[test]
fn digits_are_written() {
    assert_eq!(decimal_digits(0), vec![0]);
    assert_eq!(decimal_digits(7), vec![7]);
    assert_eq!(decimal_digits(1203), vec![1, 2, 0, 3]);
    assert_eq!(decimal_digits(u64::MAX).len(), 20);
}

#[test]
fn doubled_ids() {
    for id in [11, 22, 99, 1010, 6464, 123123, 1188511885, 222222, 446446, 38593859] {
        assert!(check_invalid_id_part1(id));
    }
    for id in [0, 1, 101, 111, 1234, 121212, 12341235] {
        assert!(!check_invalid_id_part1(id));
    }
}

#[test]
fn repeated_ids() {
    for id in [11, 111, 999, 1010, 121212, 12341234, 123123123, 1212121212, 1111111, 824824824, 2121212121] {
        assert!(check_invalid_id_part2(id));
    }
    for id in [0, 5, 10, 101, 1234, 12123, 1231231, 112112113] {
        assert!(!check_invalid_id_part2(id));
    }
}

#[test]
fn repeated_ids_agree_with_the_text() {
    for id in 0..20000u64 {
        let text = id.to_string();
        let doubled = text.len() % 2 == 0 && text[..text.len() / 2] == text[text.len() / 2..];
        let repeated = (1..=text.len() / 2)
            .any(|p| text.len() % p == 0 && text.as_bytes().chunks(p).all(|c| c == &text.as_bytes()[..p]));
        assert_eq!(check_invalid_id_part1(id), doubled);
        assert_eq!(check_invalid_id_part2(id), repeated);
    }
}

#[test]
fn ranges_are_read() {
    assert_eq!(parse_range(b"11-22"), Some((11, 22)));
    assert_eq!(parse_range(b" 11-22\n"), Some((11, 22)));
    assert_eq!(parse_range(b"11-22-33"), Some((11, 22)));
    assert_eq!(parse_range(b"11"), None);
    assert_eq!(parse_range(b"11-"), None);
    assert_eq!(parse_range(b"a-5"), None);
    assert_eq!(parse_range(b""), None);
}

#[test]
fn pieces_that_are_no_range_add_nothing() {
    assert_eq!(solution("11-22,,x,33-33", Part::One), Some(66));
    assert_eq!(solution("22-11", Part::One), Some(0));
    assert_eq!(solution("", Part::Two), Some(0));
    assert_eq!(solution("18446744073709551615-18446744073709551615", Part::Two), Some(0));
    assert_eq!(
        solution("9999999999-9999999999,9999999999999999999-9999999999999999999", Part::Two),
        Some(10000000009999999998)
    );
    assert_eq!(
        solution("9999999999999999999-9999999999999999999,9999999999999999999-9999999999999999999", Part::Two),
        None
    );
}
