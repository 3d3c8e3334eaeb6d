use sudoku::sudoku::{Sudoku, ValidationError};
use sudoku::text::ConversionError;

#[test]
fn deserialize_four_by_four() {
    let grid = Sudoku::from_string(String::from("1000\n0200\n0030\n0004")).unwrap();
    assert_eq!(grid.n, 2);
    assert_eq!(grid.get((0, 0)), Ok(Some(1)));
    assert_eq!(grid.get((1, 1)), Ok(Some(2)));
    assert_eq!(grid.get((2, 2)), Ok(Some(3)));
    assert_eq!(grid.get((3, 3)), Ok(Some(4)));
    assert_eq!(grid.get((1, 0)), Ok(None));
    assert_eq!(grid.get((3, 0)), Ok(None));
}

#[test]
fn deserialize_accepts_trailing_newline() {
    let grid = Sudoku::from_string(String::from("1000\n0200\n0030\n0004\n")).unwrap();
    assert_eq!(grid.n, 2);
    assert_eq!(grid.get((0, 0)), Ok(Some(1)));
}

#[test]
fn deserialize_single_cell() {
    let grid = Sudoku::from_string(String::from("7")).unwrap();
    assert_eq!(grid.n, 1);
    assert_eq!(grid.get((0, 0)), Ok(Some(7)));
    assert_eq!(grid.get((1, 0)), Err(ValidationError::OutOfGrid));
}

#[test]
fn deserialize_empty_text_is_the_empty_grid() {
    let grid = Sudoku::from_string(String::new()).unwrap();
    assert_eq!(grid.n, 0);
    assert_eq!(grid.get((0, 0)), Err(ValidationError::OutOfGrid));
}

#[test]
fn deserialize_rejects_non_square_line_count() {
    let r = Sudoku::from_string(String::from("100\n020\n003"));
    assert_eq!(r.unwrap_err(), ConversionError::InvalidGrid);
}

#[test]
fn deserialize_rejects_non_square_first_line() {
    // Four lines, but the first line's length (3) is not a perfect square.
    let r = Sudoku::from_string(String::from("100\n0200\n0030\n0004"));
    assert_eq!(r.unwrap_err(), ConversionError::InvalidGrid);
}

#[test]
fn deserialize_rejects_non_digit() {
    let r = Sudoku::from_string(String::from("10a0\n0200\n0030\n0004"));
    assert_eq!(r.unwrap_err(), ConversionError::ParseError);
}

#[test]
fn deserialize_rejects_unicode_numeral() {
    // A character may be numeric in the Unicode sense and still be no
    // decimal digit.
    let r = Sudoku::from_string(String::from("٣"));
    assert_eq!(r.unwrap_err(), ConversionError::ParseError);
}

#[test]
fn scenario_short_later_line_parses() {
    // Only the first line's length is checked; a shorter later line leaves
    // its missing cells empty.
    let grid = Sudoku::from_string(String::from("1234\n123\n0000\n0000")).unwrap();
    assert_eq!(grid.get((2, 1)), Ok(Some(3)));
    assert_eq!(grid.get((3, 1)), Ok(None));
}

#[test]
fn deserialize_does_not_check_sudoku_constraints() {
    // A rule-violating grid still deserializes.
    let grid = Sudoku::from_string(String::from("1111\n0000\n0000\n0000")).unwrap();
    assert_eq!(grid.get((0, 0)), Ok(Some(1)));
    assert_eq!(grid.get((3, 0)), Ok(Some(1)));
}

#[test]
fn deserialize_rejects_overlong_line() {
    // Nine characters in the first line is a perfect square, but the side is
    // four: the line cannot be adopted as a row.
    let r = Sudoku::from_string(String::from("123456789\n0000\n0000\n0000"));
    assert_eq!(r.unwrap_err(), ConversionError::InvalidGrid);
}

#[test]
fn non_digit_before_overflow_is_a_parse_error() {
    // Scanning is left to right: the non-digit at position 4 comes before
    // any cell beyond the side would be written.
    let r = Sudoku::from_string(String::from("1234x6789\n0000\n0000\n0000"));
    assert_eq!(r.unwrap_err(), ConversionError::ParseError);
}

#[test]
fn overflow_before_non_digit_is_an_invalid_grid() {
    // The all-digit prefix runs past the side before the non-digit at the
    // end of the line is reached.
    let r = Sudoku::from_string(String::from("12345678x\n0000\n0000\n0000"));
    assert_eq!(r.unwrap_err(), ConversionError::InvalidGrid);
}

#[test]
fn serialize_exact_format() {
    let mut grid = Sudoku::new(1);
    assert_eq!(grid.set((0, 0), 1), Ok(()));
    assert_eq!(grid.to_text(), "1\n");

    let empty = Sudoku::new(2);
    assert_eq!(empty.to_text(), "0000\n0000\n0000\n0000\n");
}

#[test]
fn round_trip_preserves_grid() {
    let mut grid = Sudoku::new(2);
    assert_eq!(grid.set((0, 0), 3), Ok(()));
    assert_eq!(grid.set((2, 1), 1), Ok(()));
    assert_eq!(grid.set((1, 2), 4), Ok(()));
    assert_eq!(grid.set((3, 3), 3), Ok(()));
    let text = grid.to_text();
    let back = Sudoku::from_string(text).unwrap();
    assert_eq!(back.n, grid.n);
    for x in 0..4u32 {
        for y in 0..4u32 {
            assert_eq!(back.get((x, y)), grid.get((x, y)));
        }
    }
}

#[test]
fn round_trip_nine_by_nine() {
    let mut grid = Sudoku::new(3);
    assert_eq!(grid.set((0, 0), 5), Ok(()));
    assert_eq!(grid.set((8, 8), 5), Ok(()));
    assert_eq!(grid.set((4, 4), 9), Ok(()));
    let back = Sudoku::from_string(grid.to_text()).unwrap();
    assert_eq!(back.n, 3);
    for x in 0..9u32 {
        for y in 0..9u32 {
            assert_eq!(back.get((x, y)), grid.get((x, y)));
        }
    }
}
