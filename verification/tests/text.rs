use aoc_2025::text::{
    find_mark, keep_nonempty, parse_number, parse_number_list, parse_u64, separates, split_fields,
    split_lines, split_tokens, trim, Separator,
};

fn texts(parts: &[&str]) -> Vec<Vec<u8>> {
    parts.iter().map(|p| p.as_bytes().to_vec()).collect()
}

#[test]
fn fields_keep_empty_runs() {
    assert_eq!(split_fields(b"a,b,,c", Separator::Comma), texts(&["a", "b", "", "c"]));
    assert_eq!(split_fields(b"", Separator::Comma), texts(&[""]));
    assert_eq!(split_fields(b",", Separator::Comma), texts(&["", ""]));
    assert_eq!(split_fields(b"1-2", Separator::Dash), texts(&["1", "2"]));
    assert_eq!(split_fields(b" a b", Separator::Space), texts(&["", "a", "b"]));
    assert_eq!(split_fields(b"a\tb", Separator::Space), texts(&["a\tb"]));
    assert!(separates(Separator::Blank, b'\t'));
    assert!(!separates(Separator::Blank, b'a'));
    assert!(separates(Separator::Newline, b'\n'));
}

#[test]
fn tokens_and_lines() {
    assert_eq!(split_tokens(b"  ab \t c\r"), texts(&["ab", "c"]));
    assert_eq!(split_tokens(b"   "), texts(&[]));
    assert_eq!(split_lines(b"a\nb\n"), texts(&["a", "b"]));
    assert_eq!(split_lines(b"a\r\n\r\nb"), texts(&["a", "", "b"]));
    assert_eq!(split_lines(b"a\n\n"), texts(&["a", ""]));
    assert_eq!(split_lines(b""), texts(&[]));
    assert_eq!(split_lines(b"\n"), texts(&[""]));
    assert_eq!(keep_nonempty(texts(&["", "a", "", "b", ""])), texts(&["a", "b"]));
}

#[test]
fn numbers_are_read() {
    assert_eq!(parse_u64(b"0"), Some(0));
    assert_eq!(parse_u64(b"007"), Some(7));
    assert_eq!(parse_u64(b"18446744073709551615"), Some(u64::MAX));
    assert_eq!(parse_u64(b"18446744073709551616"), None);
    assert_eq!(parse_u64(b""), None);
    assert_eq!(parse_u64(b"+5"), None);
    assert_eq!(parse_u64(b"5 "), None);
    assert_eq!(parse_number(b"123"), Some(123));
    assert_eq!(parse_number(b"99999999999999999999999"), None);
    assert_eq!(parse_number_list(b"1,22,333"), Some(vec![1, 22, 333]));
    assert_eq!(parse_number_list(b"1,,3"), None);
    assert_eq!(parse_number_list(b""), None);
}

#[test]
fn blanks_are_trimmed_and_marks_found() {
    assert_eq!(trim(b"  a b \n"), b"a b".to_vec());
    assert_eq!(trim(b"ab"), b"ab".to_vec());
    assert_eq!(trim(b" \t "), Vec::<u8>::new());
    assert_eq!(trim(b""), Vec::<u8>::new());
    assert_eq!(find_mark(b"..S.S", b'S'), 2);
    assert_eq!(find_mark(b"....", b'S'), 4);
    assert_eq!(find_mark(b"", b'S'), 0);
}
