//! Coordinates on the grid and the values a cell can hold.

use crate::error::SudokuError;
use vstd::prelude::*;

verus! {

/// A coordinate on the 9x9 grid. It carries no value; it only addresses a cell.
#[derive(Debug, PartialEq, Eq)]
#[non_exhaustive]
pub struct Cell {
    row: usize,
    column: usize,
    index: usize,
}

impl Cell {
    /// The three components agree and lie on the grid.
    #[verifier::type_invariant]
    pub closed spec fn well_formed(&self) -> bool {
        &&& self.row < 9
        &&& self.column < 9
        &&& self.index == self.row * 9 + self.column
    }

    /// The row of this cell, counted from 0 at the top.
    pub closed spec fn spec_row(&self) -> nat {
        self.row as nat
    }

    /// The column of this cell, counted from 0 at the left.
    pub closed spec fn spec_column(&self) -> nat {
        self.column as nat
    }

    /// The position of this cell in row-major order.
    pub closed spec fn spec_index(&self) -> nat {
        self.index as nat
    }

    /// The cell at the given row and column, or `OutOfRange` when either is
    /// 9 or more.
    pub fn row_column(row: usize, column: usize) -> (r: Result<Cell, SudokuError>)
        ensures
            r is Ok <==> row < 9 && column < 9,
            r is Err ==> r == Err::<Cell, SudokuError>(SudokuError::OutOfRange),
            r is Ok ==> r->Ok_0.spec_row() == row && r->Ok_0.spec_column() == column
                && r->Ok_0.spec_index() == row * 9 + column,
    {
        if row < 9 && column < 9 {
            let index: usize = row * 9 + column;
            Ok(Cell { row, column, index })
        } else {
            Err(SudokuError::OutOfRange)
        }
    }

    /// The cell at the given row-major position, or `OutOfRange` when the
    /// position is 81 or more.
    pub fn index(index: usize) -> (r: Result<Cell, SudokuError>)
        ensures
            r is Ok <==> index < 81,
            r is Err ==> r == Err::<Cell, SudokuError>(SudokuError::OutOfRange),
            r is Ok ==> r->Ok_0.spec_row() == index / 9 && r->Ok_0.spec_column() == index % 9
                && r->Ok_0.spec_index() == index,
    {
        if index < 81 {
            let row: usize = index / 9;
            let column: usize = index % 9;
            Ok(Cell { row, column, index })
        } else {
            Err(SudokuError::OutOfRange)
        }
    }

    /// Reads the row; it is always the position divided by 9.
    pub fn row(&self) -> (r: usize)
        ensures
            r == self.spec_row(),
            r == self.spec_index() / 9,
            r < 9,
    {
        proof {
            use_type_invariant(self);
        }
        self.row
    }

    /// Reads the column; it is always the position modulo 9.
    pub fn column(&self) -> (c: usize)
        ensures
            c == self.spec_column(),
            c == self.spec_index() % 9,
            c < 9,
    {
        proof {
            use_type_invariant(self);
        }
        self.column
    }

    /// Reads the row-major position, which is always below 81.
    pub fn linear_index(&self) -> (i: usize)
        ensures
            i == self.spec_index(),
            i == self.spec_row() * 9 + self.spec_column(),
            i < 81,
    {
        proof {
            use_type_invariant(self);
        }
        self.index
    }
}

/// The values a blank cell is filled with, in the order in which they are tried.
const CANDIDATES: [SudokuValue; 9] = [
    SudokuValue::One,
    SudokuValue::Two,
    SudokuValue::Three,
    SudokuValue::Four,
    SudokuValue::Five,
    SudokuValue::Six,
    SudokuValue::Seven,
    SudokuValue::Eight,
    SudokuValue::Nine,
];

/// What a cell holds: nothing yet, or one of the digits 1 to 9.
#[derive(Debug, Clone, Copy, PartialEq, Eq, Structural)]
pub enum SudokuValue {
    Unknown,
    One,
    Two,
    Three,
    Four,
    Five,
    Six,
    Seven,
    Eight,
    Nine,
}

/// The value written as the digit `d`; anything above 9 is no value.
pub open spec fn value_of_digit(d: nat) -> Option<SudokuValue> {
    if d == 0 {
        Some(SudokuValue::Unknown)
    } else if d == 1 {
        Some(SudokuValue::One)
    } else if d == 2 {
        Some(SudokuValue::Two)
    } else if d == 3 {
        Some(SudokuValue::Three)
    } else if d == 4 {
        Some(SudokuValue::Four)
    } else if d == 5 {
        Some(SudokuValue::Five)
    } else if d == 6 {
        Some(SudokuValue::Six)
    } else if d == 7 {
        Some(SudokuValue::Seven)
    } else if d == 8 {
        Some(SudokuValue::Eight)
    } else if d == 9 {
        Some(SudokuValue::Nine)
    } else {
        None
    }
}

/// The value that a character stands for: `'0'` is the blank cell, `'1'` to
/// `'9'` are the digits, and no other character stands for a value.
pub open spec fn value_of_char(c: char) -> Option<SudokuValue> {
    if '0' <= c && c <= '9' {
        value_of_digit((c as u32 - '0' as u32) as nat)
    } else {
        None
    }
}

/// The nine values a blank cell can be filled with, in the order in which
/// they are tried.
pub open spec fn candidate_seq() -> Seq<SudokuValue> {
    seq![
        SudokuValue::One,
        SudokuValue::Two,
        SudokuValue::Three,
        SudokuValue::Four,
        SudokuValue::Five,
        SudokuValue::Six,
        SudokuValue::Seven,
        SudokuValue::Eight,
        SudokuValue::Nine,
    ]
}

impl SudokuValue {
    /// The number this value stands for, with 0 for the blank cell.
    pub open spec fn digit(self) -> nat {
        match self {
            SudokuValue::Unknown => 0,
            SudokuValue::One => 1,
            SudokuValue::Two => 2,
            SudokuValue::Three => 3,
            SudokuValue::Four => 4,
            SudokuValue::Five => 5,
            SudokuValue::Six => 6,
            SudokuValue::Seven => 7,
            SudokuValue::Eight => 8,
            SudokuValue::Nine => 9,
        }
    }

    /// The character this value is written as.
    pub open spec fn spec_char(self) -> char {
        match self {
            SudokuValue::Unknown => '0',
            SudokuValue::One => '1',
            SudokuValue::Two => '2',
            SudokuValue::Three => '3',
            SudokuValue::Four => '4',
            SudokuValue::Five => '5',
            SudokuValue::Six => '6',
            SudokuValue::Seven => '7',
            SudokuValue::Eight => '8',
            SudokuValue::Nine => '9',
        }
    }

    /// The number this value stands for, with 0 for the blank cell.
    pub fn value(&self) -> (n: usize)
        ensures
            n == self.digit(),
    {
        match self {
            SudokuValue::Unknown => 0,
            SudokuValue::One => 1,
            SudokuValue::Two => 2,
            SudokuValue::Three => 3,
            SudokuValue::Four => 4,
            SudokuValue::Five => 5,
            SudokuValue::Six => 6,
            SudokuValue::Seven => 7,
            SudokuValue::Eight => 8,
            SudokuValue::Nine => 9,
        }
    }

    /// The nine digits in ascending order; the blank is not among them.
    pub fn candidates() -> (r: &'static [SudokuValue])
        ensures
            r@ == candidate_seq(),
    {
        let all: &'static [SudokuValue; 9] = &CANDIDATES;
        assert(all@ =~= candidate_seq());
        all.as_slice()
    }

    /// Reads a value from its character; any character but the ten ASCII
    /// digits is refused with `InvalidCharacter`.
    pub fn try_from(value: char) -> (r: Result<SudokuValue, SudokuError>)
        ensures
            r == match value_of_char(value) {
                Some(v) => Ok::<SudokuValue, SudokuError>(v),
                None => Err(SudokuError::InvalidCharacter),
            },
    {
        match value {
            '0' => Ok(SudokuValue::Unknown),
            '1' => Ok(SudokuValue::One),
            '2' => Ok(SudokuValue::Two),
            '3' => Ok(SudokuValue::Three),
            '4' => Ok(SudokuValue::Four),
            '5' => Ok(SudokuValue::Five),
            '6' => Ok(SudokuValue::Six),
            '7' => Ok(SudokuValue::Seven),
            '8' => Ok(SudokuValue::Eight),
            '9' => Ok(SudokuValue::Nine),
            _ => Err(SudokuError::InvalidCharacter),
        }
    }

    /// Writes the value as its character.
    pub fn to_char(&self) -> (c: char)
        ensures
            c == self.spec_char(),
    {
        match self {
            SudokuValue::Unknown => '0',
            SudokuValue::One => '1',
            SudokuValue::Two => '2',
            SudokuValue::Three => '3',
            SudokuValue::Four => '4',
            SudokuValue::Five => '5',
            SudokuValue::Six => '6',
            SudokuValue::Seven => '7',
            SudokuValue::Eight => '8',
            SudokuValue::Nine => '9',
        }
    }

    /// The candidates are exactly the digits 1 to 9, in ascending order.
    pub proof fn lemma_candidate_digits()
        ensures
            candidate_seq().len() == 9,
            forall|t: int| 0 <= t < 9 ==> (#[trigger] candidate_seq()[t]).digit() == t + 1,
    {
        let s = candidate_seq();
        assert(s[0].digit() == 1 && s[1].digit() == 2 && s[2].digit() == 3);
        assert(s[3].digit() == 4 && s[4].digit() == 5 && s[5].digit() == 6);
        assert(s[6].digit() == 7 && s[7].digit() == 8 && s[8].digit() == 9);
    }

    /// Reading back the character of a value gives that value, and writing
    /// the value of a digit character gives that character.
    pub proof fn lemma_char_round_trip(v: SudokuValue, c: char)
        ensures
            value_of_char(v.spec_char()) == Some(v),
            value_of_char(c) is Some ==> value_of_char(c)->Some_0.spec_char() == c,
            value_of_char(c) is Some <==> '0' <= c <= '9',
    {
    }
}

} // verus!
