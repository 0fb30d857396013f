use std::convert::TryFrom;
use sudoku::error::SudokuError;
use sudoku::model::cell::{Cell, SudokuValue};

#[test]
fn construct_cell() {
    assert_eq!(Cell::row_column(0, 0), Cell::index(0));
    assert_eq!(Cell::row_column(0, 1), Cell::index(1));
    assert_eq!(Cell::row_column(0, 2), Cell::index(2));
    assert_eq!(Cell::row_column(0, 3), Cell::index(3));
    assert_eq!(Cell::row_column(0, 4), Cell::index(4));
    assert_eq!(Cell::row_column(0, 5), Cell::index(5));
    assert_eq!(Cell::row_column(0, 6), Cell::index(6));
    assert_eq!(Cell::row_column(0, 7), Cell::index(7));
    assert_eq!(Cell::row_column(0, 8), Cell::index(8));

    assert_eq!(Cell::row_column(1, 0), Cell::index(9));
    assert_eq!(Cell::row_column(1, 1), Cell::index(10));
    assert_eq!(Cell::row_column(1, 8), Cell::index(17));

    assert_eq!(Cell::row_column(2, 0), Cell::index(18));
    assert_eq!(Cell::row_column(2, 1), Cell::index(19));
    assert_eq!(Cell::row_column(2, 8), Cell::index(26));

    assert_eq!(Cell::row_column(8, 8), Cell::index(80));
}

#[test]
fn invalid_cell() {
    Cell::row_column(0, 9).unwrap_err();
    Cell::row_column(9, 0).unwrap_err();
    Cell::row_column(9, 9).unwrap_err();

    Cell::index(9 * 9).unwrap_err();
}

#[test]
fn convert_value() {
    assert_eq!(
        SudokuValue::try_from(SudokuValue::Unknown.to_char()).unwrap(),
        SudokuValue::Unknown,
    );
    assert_eq!(SudokuValue::Unknown.value(), 0);

    assert_eq!(
        SudokuValue::try_from(SudokuValue::One.to_char()).unwrap(),
        SudokuValue::One,
    );
    assert_eq!(SudokuValue::One.value(), 1);

    assert_eq!(
        SudokuValue::try_from(SudokuValue::Two.to_char()).unwrap(),
        SudokuValue::Two,
    );
    assert_eq!(SudokuValue::Two.value(), 2);

    assert_eq!(
        SudokuValue::try_from(SudokuValue::Three.to_char()).unwrap(),
        SudokuValue::Three,
    );
    assert_eq!(SudokuValue::Three.value(), 3);

    assert_eq!(
        SudokuValue::try_from(SudokuValue::Four.to_char()).unwrap(),
        SudokuValue::Four,
    );
    assert_eq!(SudokuValue::Four.value(), 4);

    assert_eq!(
        SudokuValue::try_from(SudokuValue::Five.to_char()).unwrap(),
        SudokuValue::Five,
    );
    assert_eq!(SudokuValue::Five.value(), 5);

    assert_eq!(
        SudokuValue::try_from(SudokuValue::Six.to_char()).unwrap(),
        SudokuValue::Six,
    );
    assert_eq!(SudokuValue::Six.value(), 6);

    assert_eq!(
        SudokuValue::try_from(SudokuValue::Seven.to_char()).unwrap(),
        SudokuValue::Seven,
    );
    assert_eq!(SudokuValue::Seven.value(), 7);

    assert_eq!(
        SudokuValue::try_from(SudokuValue::Eight.to_char()).unwrap(),
        SudokuValue::Eight,
    );
    assert_eq!(SudokuValue::Eight.value(), 8);

    assert_eq!(
        SudokuValue::try_from(SudokuValue::Nine.to_char()).unwrap(),
        SudokuValue::Nine,
    );
    assert_eq!(SudokuValue::Nine.value(), 9);
}

#[test]
fn invalid_value() {
    SudokuValue::try_from('a').unwrap_err();
}

#[test]
fn cell_errors_are_out_of_range() {
    assert_eq!(Cell::row_column(0, 9), Err(SudokuError::OutOfRange));
    assert_eq!(Cell::row_column(9, 0), Err(SudokuError::OutOfRange));
    assert_eq!(Cell::row_column(usize::MAX, usize::MAX), Err(SudokuError::OutOfRange));
    assert_eq!(Cell::index(81), Err(SudokuError::OutOfRange));
    assert_eq!(Cell::index(usize::MAX), Err(SudokuError::OutOfRange));
}

#[test]
fn cell_components() {
    let cell = Cell::index(50).unwrap();
    assert_eq!(cell.row(), 5);
    assert_eq!(cell.column(), 5);
    assert_eq!(cell.linear_index(), 50);

    let cell = Cell::row_column(7, 2).unwrap();
    assert_eq!(cell.row(), 7);
    assert_eq!(cell.column(), 2);
    assert_eq!(cell.linear_index(), 65);

    for i in 0..81 {
        let cell = Cell::index(i).unwrap();
        assert_eq!(cell.row(), i / 9);
        assert_eq!(cell.column(), i % 9);
        assert_eq!(cell.linear_index(), i);
        assert_eq!(Cell::row_column(cell.row(), cell.column()).unwrap(), cell);
    }
}

#[test]
fn value_characters() {
    assert_eq!(SudokuValue::try_from('0'), Ok(SudokuValue::Unknown));
    assert_eq!(SudokuValue::try_from('5'), Ok(SudokuValue::Five));
    assert_eq!(SudokuValue::try_from('9'), Ok(SudokuValue::Nine));
    assert_eq!(SudokuValue::try_from('/'), Err(SudokuError::InvalidCharacter));
    assert_eq!(SudokuValue::try_from(':'), Err(SudokuError::InvalidCharacter));
    assert_eq!(SudokuValue::try_from(' '), Err(SudokuError::InvalidCharacter));
    assert_eq!(SudokuValue::try_from('.'), Err(SudokuError::InvalidCharacter));
    assert_eq!(SudokuValue::try_from('\u{0661}'), Err(SudokuError::InvalidCharacter));
    for c in ['0', '1', '2', '3', '4', '5', '6', '7', '8', '9'] {
        assert_eq!(SudokuValue::try_from(c).unwrap().to_char(), c);
    }
}

#[test]
fn candidates_ascend_from_one_to_nine() {
    let candidates = SudokuValue::candidates();
    assert_eq!(
        candidates.to_vec(),
        vec![
            SudokuValue::One,
            SudokuValue::Two,
            SudokuValue::Three,
            SudokuValue::Four,
            SudokuValue::Five,
            SudokuValue::Six,
            SudokuValue::Seven,
            SudokuValue::Eight,
            SudokuValue::Nine,
        ]
    );
    for (i, candidate) in candidates.iter().enumerate() {
        assert_eq!(candidate.value(), i + 1);
    }
}

#[test]
fn count_index() {
    assert_eq!(SudokuValue::Unknown.to_count_index(), None);
    assert_eq!(SudokuValue::One.to_count_index(), Some(0));
    assert_eq!(SudokuValue::Five.to_count_index(), Some(4));
    assert_eq!(SudokuValue::Nine.to_count_index(), Some(8));
}
