use nonogram_solver::loader::{parse_blocks, ParseError};
use nonogram_solver::puzzle_info::PuzzleInfo;

#[test]
fn parse_one_number_on_each_line() {
    assert_eq!(parse_blocks(b"1\n2\n3"), Ok(vec![vec![1], vec![2], vec![3]]));
}

#[test]
fn parse_numbers_with_single_spaces() {
    assert_eq!(parse_blocks(b"1 2 3\n10 20\n7\n"), Ok(vec![vec![1, 2, 3], vec![10, 20], vec![7]]));
}

#[test]
fn parse_text_without_bytes_has_no_lines() {
    assert_eq!(parse_blocks(b""), Ok(Vec::<Vec<usize>>::new()));
}

#[test]
fn parse_last_line_may_end_with_a_newline() {
    assert_eq!(parse_blocks(b"4 5"), Ok(vec![vec![4, 5]]));
    assert_eq!(parse_blocks(b"4 5\n"), Ok(vec![vec![4, 5]]));
}

#[test]
fn parse_return_before_newline_ends_the_line() {
    assert_eq!(parse_blocks(b"1 2\r\n3\r\n"), Ok(vec![vec![1, 2], vec![3]]));
    assert_eq!(parse_blocks(b"1 2\r\n3"), Ok(vec![vec![1, 2], vec![3]]));
}

#[test]
fn parse_return_without_newline_is_no_digit() {
    assert_eq!(parse_blocks(b"1\n2\r"), Err(ParseError::InvalidDigit));
    assert_eq!(parse_blocks(b"1\r2\n"), Err(ParseError::InvalidDigit));
}

#[test]
fn parse_sign_and_leading_zeros() {
    assert_eq!(parse_blocks(b"+3 007 0"), Ok(vec![vec![3, 7, 0]]));
}

#[test]
fn parse_empty_line_is_an_error() {
    assert_eq!(parse_blocks(b"\n"), Err(ParseError::Empty));
    assert_eq!(parse_blocks(b"1\n\n2"), Err(ParseError::Empty));
    assert_eq!(parse_blocks(b"1\n\r\n2"), Err(ParseError::Empty));
}

#[test]
fn parse_space_without_number_is_an_error() {
    assert_eq!(parse_blocks(b"1  2"), Err(ParseError::Empty));
    assert_eq!(parse_blocks(b" 1"), Err(ParseError::Empty));
    assert_eq!(parse_blocks(b"1 "), Err(ParseError::Empty));
    assert_eq!(parse_blocks(b"1 \n2"), Err(ParseError::Empty));
}

#[test]
fn parse_other_bytes_are_no_digits() {
    assert_eq!(parse_blocks(b"1 x"), Err(ParseError::InvalidDigit));
    assert_eq!(parse_blocks(b"-1"), Err(ParseError::InvalidDigit));
    assert_eq!(parse_blocks(b"1\t2"), Err(ParseError::InvalidDigit));
    assert_eq!(parse_blocks(b"1_000"), Err(ParseError::InvalidDigit));
    assert_eq!(parse_blocks(b"+"), Err(ParseError::InvalidDigit));
    assert_eq!(parse_blocks(b"++1"), Err(ParseError::InvalidDigit));
    assert_eq!(parse_blocks("1 \u{e9}".as_bytes()), Err(ParseError::InvalidDigit));
}

#[test]
fn parse_largest_number() {
    let text = format!("{}", usize::MAX);
    assert_eq!(parse_blocks(text.as_bytes()), Ok(vec![vec![usize::MAX]]));
}

#[test]
fn parse_number_too_large() {
    let text = format!("{}0", usize::MAX);
    assert_eq!(parse_blocks(text.as_bytes()), Err(ParseError::Overflow));
    let text = format!("1 {}", usize::MAX as u128 + 1);
    assert_eq!(parse_blocks(text.as_bytes()), Err(ParseError::Overflow));
}

#[test]
fn parse_first_error_wins() {
    assert_eq!(parse_blocks(b"1 x 2  3"), Err(ParseError::InvalidDigit));
    assert_eq!(parse_blocks(b"1  2 x"), Err(ParseError::Empty));
    assert_eq!(parse_blocks(b"99999999999999999999999999999999999999999999x"), Err(ParseError::Overflow));
    assert_eq!(parse_blocks(b"9x9999999999999999999999999999999999999999999"), Err(ParseError::InvalidDigit));
}

#[test]
fn parse_agrees_with_the_standard_library() {
    let fields = ["", "0", "5", "+5", "-5", "+", "12a", "a12", "00012", "18446744073709551615",
        "18446744073709551616", "4294967295", "4294967296", "99999999999999999999999", " 5", "5 "];
    for field in fields {
        if field.contains(' ') {
            continue;
        }
        let expected = field.parse::<usize>().ok();
        let got = parse_blocks(field.as_bytes()).ok();
        if field.is_empty() {
            assert_eq!(got, Some(vec![]));
        } else {
            assert_eq!(got, expected.map(|n| vec![vec![n]]), "{:?}", field);
        }
    }
}

#[test]
fn puzzle_from_blocks_takes_both_sides_from_the_columns() {
    let puzzle = PuzzleInfo::from_blocks(vec![vec![1], vec![2]], vec![vec![1], vec![], vec![3]]).unwrap();
    assert_eq!(puzzle.width(), 3);
    assert_eq!(puzzle.height(), 3);
    assert_eq!(puzzle.row_blocks(), &vec![vec![1], vec![2]]);
    assert_eq!(puzzle.col_blocks(), &vec![vec![1], vec![], vec![3]]);
}

#[test]
fn puzzle_from_blocks_needs_rows_and_columns() {
    assert!(PuzzleInfo::from_blocks(vec![], vec![vec![1]]).is_none());
    assert!(PuzzleInfo::from_blocks(vec![vec![1]], vec![]).is_none());
    assert!(PuzzleInfo::from_blocks(vec![], vec![]).is_none());
}

#[test]
fn puzzle_new_keeps_what_it_is_given() {
    let puzzle = PuzzleInfo::new(4, 2, vec![vec![1, 2], vec![]], vec![vec![1], vec![], vec![1], vec![1]]);
    assert_eq!(puzzle.width(), 4);
    assert_eq!(puzzle.height(), 2);
    assert_eq!(puzzle.row_blocks(), &vec![vec![1, 2], vec![]]);
    assert_eq!(puzzle.col_blocks(), &vec![vec![1], vec![], vec![1], vec![1]]);
}
