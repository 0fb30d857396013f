use std::convert::TryFrom;
use std::convert::TryInto;
use std::str::FromStr;
use sudoku::error::SudokuError;
use sudoku::model::board::SudokuProblem;
use sudoku::model::cell::{Cell, SudokuValue};

const SOLVED: &str =
    "136524798895367124724981356583649271261873945479152683642718539957436812318295467";
const PUZZLE: &str =
    "379000014060010070080009005435007000090040020000800436900700080040080050850000249";
const COUNTING: &str =
    "012345678901234567890123456789012345678901234567890123456789012345678901234567890";

fn as_section(snippet: &str) -> [SudokuValue; 9] {
    let tmp = snippet
        .chars()
        .map(|c| SudokuValue::try_from(c).unwrap())
        .collect::<Vec<_>>();
    tmp.try_into().unwrap()
}

#[test]
fn sections() {
    /*
    136524798
    895367124
    724981356
    583649271
    261873945
    479152683
    642718539
    957436812
    318295467
     */
    let problem = SudokuProblem::from_str(
        "136524798895367124724981356583649271261873945479152683642718539957436812318295467",
    )
    .unwrap();
    assert_eq!(
        problem.rows(),
        vec![
            as_section("136524798"),
            as_section("895367124"),
            as_section("724981356"),
            as_section("583649271"),
            as_section("261873945"),
            as_section("479152683"),
            as_section("642718539"),
            as_section("957436812"),
            as_section("318295467"),
        ]
    );
    assert_eq!(
        problem.columns(),
        vec![
            as_section("187524693"),
            as_section("392867451"),
            as_section("654319278"),
            as_section("539681742"),
            as_section("268475139"),
            as_section("471932865"),
            as_section("713296584"),
            as_section("925748316"),
            as_section("846153927"),
        ]
    );
    assert_eq!(
        problem.squares(),
        vec![
            as_section("136895724"),
            as_section("524367981"),
            as_section("798124356"),
            as_section("583261479"),
            as_section("649873152"),
            as_section("271945683"),
            as_section("642957318"),
            as_section("718436295"),
            as_section("539812467"),
        ]
    );
}

#[test]
fn is_valid() {
    /*
    379000014
    060010070
    080009005
    435007000
    090040020
    000800436
    900700080
    040080050
    850000249
     */
    let problem = SudokuProblem::from_str(
        "379000014060010070080009005435007000090040020000800436900700080040080050850000249",
    )
    .unwrap();
    assert!(problem.is_valid());

    // Row invalid
    let problem = SudokuProblem::from_str(
        "379300014060010070080009005435007000090040020000800436900700080040080050850000249",
    )
    .unwrap();
    assert!(!problem.is_valid());

    // Column invalid
    let problem = SudokuProblem::from_str(
        "379000014360010070080009005435007000090040020000800436900700080040080050850000249",
    )
    .unwrap();
    assert!(!problem.is_valid());

    // Square invalid
    let problem = SudokuProblem::from_str(
        "379000014063010070080009005435007000090040020000800436900700080040080050850000249",
    )
    .unwrap();
    assert!(!problem.is_valid());
}

#[test]
fn is_complete() {
    let problem = SudokuProblem::from_str(
        "136524798895367124724981356583649271261873945479152683642718539957436812318295467",
    )
    .unwrap();
    assert!(problem.is_complete());

    // Row incomplete
    let problem = SudokuProblem::from_str(
        "136524790895367124724981356583649271261873945479152683642718539957436812318295467",
    )
    .unwrap();
    assert!(!problem.is_complete());

    // Column incomplete
    let problem = SudokuProblem::from_str(
        "136524798895367124724981356583649271261873945479152683642718539957436812018295467",
    )
    .unwrap();
    assert!(!problem.is_complete());

    // Square incomplete
    let problem = SudokuProblem::from_str(
        "136524798895367124720981356583649271261873945479152683642718539957436812318295467",
    )
    .unwrap();
    assert!(!problem.is_complete());
}

#[test]
fn replace() {
    let problem = SudokuProblem::from_str(
        "012345678901234567890123456789012345678901234567890123456789012345678901234567890",
    )
    .unwrap();

    assert_eq!(
        problem.replace(&Cell::row_column(0, 0).unwrap(), SudokuValue::One),
        SudokuProblem::from_str(
            "112345678901234567890123456789012345678901234567890123456789012345678901234567890",
        )
        .unwrap()
    );
    assert_eq!(
        problem.replace(&Cell::row_column(0, 8).unwrap(), SudokuValue::Nine),
        SudokuProblem::from_str(
            "012345679901234567890123456789012345678901234567890123456789012345678901234567890",
        )
        .unwrap()
    );
}

#[test]
fn position() {
    let problem = SudokuProblem::from_str(
        "012345678901234567890123456789012345678901234567890123456789012345678901234567890",
    )
    .unwrap();

    assert_eq!(
        problem.position(&SudokuValue::Unknown),
        Some(Cell::index(0).unwrap()),
    );

    assert_eq!(
        problem.position(&SudokuValue::One),
        Some(Cell::index(1).unwrap()),
    );

    assert_eq!(SudokuProblem::default().position(&SudokuValue::One), None,);
}

#[test]
fn text_round_trip() {
    for text in [SOLVED, PUZZLE, COUNTING] {
        let board = SudokuProblem::from_str(text).unwrap();
        assert_eq!(board.to_string(), text);
        assert_eq!(SudokuProblem::from_str(&board.to_string()).unwrap(), board);
    }
    let blank = SudokuProblem::default();
    assert_eq!(blank.to_string(), "0".repeat(81));
    assert_eq!(SudokuProblem::from_str(&blank.to_string()).unwrap(), blank);
}

#[test]
fn parse_through_the_trait() {
    let board: SudokuProblem = PUZZLE.parse().unwrap();
    assert_eq!(board.to_string(), PUZZLE);
    let refused: Result<SudokuProblem, SudokuError> = "12".parse();
    assert_eq!(refused, Err(SudokuError::Malformed));
}

#[test]
fn new_keeps_the_values_in_order() {
    let mut values = [SudokuValue::Unknown; 81];
    values[0] = SudokuValue::Seven;
    values[9] = SudokuValue::Two;
    values[80] = SudokuValue::Nine;
    let board = SudokuProblem::new(values);
    let mut text = "0".repeat(81).into_bytes();
    text[0] = b'7';
    text[9] = b'2';
    text[80] = b'9';
    assert_eq!(board.to_string().into_bytes(), text);
    assert_eq!(board.rows()[1][0], SudokuValue::Two);
    assert_eq!(board.columns()[8][8], SudokuValue::Nine);
}

#[test]
fn clone_is_equal() {
    let board = SudokuProblem::from_str(PUZZLE).unwrap();
    assert_eq!(board.clone(), board);
    assert_eq!(board.clone().to_string(), PUZZLE);
}

#[test]
fn malformed_text_is_refused() {
    assert_eq!(SudokuProblem::from_str(""), Err(SudokuError::Malformed));
    assert_eq!(SudokuProblem::from_str(&PUZZLE[..80]), Err(SudokuError::Malformed));
    assert_eq!(
        SudokuProblem::from_str(&format!("{}0", PUZZLE)),
        Err(SudokuError::Malformed)
    );
    assert_eq!(
        SudokuProblem::from_str(&format!(" {}", &PUZZLE[..80])),
        Err(SudokuError::Malformed)
    );
    assert_eq!(
        SudokuProblem::from_str(&format!("{}\n", &PUZZLE[..80])),
        Err(SudokuError::Malformed)
    );
    assert_eq!(
        SudokuProblem::from_str(&format!("{}a", &PUZZLE[..80])),
        Err(SudokuError::Malformed)
    );
    assert_eq!(
        SudokuProblem::from_str(&format!("{}.", &PUZZLE[..80])),
        Err(SudokuError::Malformed)
    );
    assert_eq!(
        SudokuProblem::from_str(&format!("x{}", &PUZZLE[1..])),
        Err(SudokuError::Malformed)
    );
    // 81 characters, one of them a digit of another script.
    assert_eq!(
        SudokuProblem::from_str(&format!("{}\u{0663}", &PUZZLE[..80])),
        Err(SudokuError::Malformed)
    );
    // 81 bytes but only 80 characters.
    assert_eq!(
        SudokuProblem::from_str(&format!("{}\u{00e9}", &PUZZLE[..79])),
        Err(SudokuError::Malformed)
    );
}

#[test]
fn blank_board_is_valid_and_incomplete() {
    let blank = SudokuProblem::default();
    assert!(blank.is_valid());
    assert!(!blank.is_complete());
    assert_eq!(blank.position(&SudokuValue::Unknown), Some(Cell::index(0).unwrap()));
    for row in blank.rows() {
        assert_eq!(row, [SudokuValue::Unknown; 9]);
    }
}

#[test]
fn replace_changes_one_cell_only() {
    let board = SudokuProblem::from_str(PUZZLE).unwrap();
    let cell = Cell::row_column(4, 4).unwrap();
    let changed = board.replace(&cell, SudokuValue::Six);

    let before = board.to_string().into_bytes();
    let after = changed.to_string().into_bytes();
    for i in 0..81 {
        if i == 40 {
            assert_eq!(after[i], b'6');
        } else {
            assert_eq!(after[i], before[i]);
        }
    }
    assert_eq!(before[40], b'4');
    assert_eq!(board.to_string(), PUZZLE);
    assert_eq!(changed.replace(&cell, SudokuValue::Four), board);
    assert_eq!(
        board.replace(&Cell::index(80).unwrap(), SudokuValue::Unknown).to_string(),
        format!("{}0", &PUZZLE[..80])
    );
}

#[test]
fn complete_exactly_when_no_blank_is_found() {
    for text in [SOLVED, PUZZLE, COUNTING] {
        let board = SudokuProblem::from_str(text).unwrap();
        assert_eq!(
            board.position(&SudokuValue::Unknown).is_none(),
            board.is_complete()
        );
    }
    let solved = SudokuProblem::from_str(SOLVED).unwrap();
    assert_eq!(solved.position(&SudokuValue::Unknown), None);
    let last_blank = solved.replace(&Cell::index(80).unwrap(), SudokuValue::Unknown);
    assert_eq!(
        last_blank.position(&SudokuValue::Unknown),
        Some(Cell::index(80).unwrap())
    );
    assert!(!last_blank.is_complete());
}

#[test]
fn position_finds_the_first_of_several() {
    let board = SudokuProblem::from_str(PUZZLE).unwrap();
    assert_eq!(board.position(&SudokuValue::Unknown), Some(Cell::row_column(0, 3).unwrap()));
    assert_eq!(board.position(&SudokuValue::Three), Some(Cell::index(0).unwrap()));
    assert_eq!(board.position(&SudokuValue::Two), Some(Cell::row_column(4, 7).unwrap()));
}

#[test]
fn validity_of_each_kind_of_group() {
    let solved = SudokuProblem::from_str(SOLVED).unwrap();
    assert!(solved.is_valid());

    let blank = SudokuProblem::default();
    let first = blank.replace(&Cell::row_column(0, 0).unwrap(), SudokuValue::Five);

    // The same digit again in the row, far from the box.
    assert!(!first.replace(&Cell::row_column(0, 8).unwrap(), SudokuValue::Five).is_valid());
    // In the column.
    assert!(!first.replace(&Cell::row_column(8, 0).unwrap(), SudokuValue::Five).is_valid());
    // In the box, in another row and another column.
    assert!(!first.replace(&Cell::row_column(2, 2).unwrap(), SudokuValue::Five).is_valid());
    // Elsewhere it is no conflict, and another digit never is.
    assert!(first.replace(&Cell::row_column(3, 3).unwrap(), SudokuValue::Five).is_valid());
    assert!(first.replace(&Cell::row_column(0, 8).unwrap(), SudokuValue::Six).is_valid());
    // A complete board with one digit changed repeats that digit.
    assert!(!solved.replace(&Cell::index(0).unwrap(), SudokuValue::Three).is_valid());
    assert!(solved.replace(&Cell::index(0).unwrap(), SudokuValue::Three).is_complete());
}
