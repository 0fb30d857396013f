//! The board: 81 values in row-major order, its decomposition into rows,
//! columns and boxes, and the checks built on that decomposition.

use crate::error::SudokuError;
use crate::model::cell::{value_of_char, Cell, SudokuValue};
use vstd::prelude::*;
use vstd::string::{StrSliceExecFns, StringExecFns};

verus! {

/// Row `k` of a grid, left to right.
pub open spec fn row_group(s: Seq<SudokuValue>, k: int) -> Seq<SudokuValue> {
    Seq::new(9, |j: int| s[k * 9 + j])
}

/// Column `k` of a grid, top to bottom.
pub open spec fn column_group(s: Seq<SudokuValue>, k: int) -> Seq<SudokuValue> {
    Seq::new(9, |i: int| s[i * 9 + k])
}

/// The position of the top left cell of box `b`; boxes are numbered left to
/// right, then top to bottom.
pub open spec fn box_base(b: int) -> int {
    (b / 3) * 27 + (b % 3) * 3
}

/// Box `b` of a grid, scanned left to right, then top to bottom.
pub open spec fn box_group(s: Seq<SudokuValue>, b: int) -> Seq<SudokuValue> {
    Seq::new(9, |y: int| s[box_base(b) + (y / 3) * 9 + (y % 3)])
}

/// No digit occurs twice in the group; blanks may repeat.
pub open spec fn group_valid(g: Seq<SudokuValue>) -> bool {
    forall|i: int, j: int|
        0 <= i < j < g.len() && g[i] != SudokuValue::Unknown ==> g[i] != g[j]
}

/// Every row is free of repeated digits.
pub open spec fn rows_valid(s: Seq<SudokuValue>) -> bool {
    forall|k: int| 0 <= k < 9 ==> group_valid(#[trigger] row_group(s, k))
}

/// Every column is free of repeated digits.
pub open spec fn columns_valid(s: Seq<SudokuValue>) -> bool {
    forall|k: int| 0 <= k < 9 ==> group_valid(#[trigger] column_group(s, k))
}

/// Every box is free of repeated digits.
pub open spec fn boxes_valid(s: Seq<SudokuValue>) -> bool {
    forall|k: int| 0 <= k < 9 ==> group_valid(#[trigger] box_group(s, k))
}

/// All 27 groups are free of repeated digits.
pub open spec fn grid_valid(s: Seq<SudokuValue>) -> bool {
    rows_valid(s) && columns_valid(s) && boxes_valid(s)
}

/// No cell is blank.
pub open spec fn grid_complete(s: Seq<SudokuValue>) -> bool {
    forall|i: int| 0 <= i < s.len() ==> s[i] != SudokuValue::Unknown
}

/// The grid of 81 blanks.
pub open spec fn blank_grid() -> Seq<SudokuValue> {
    Seq::new(81, |i: int| SudokuValue::Unknown)
}

/// The grid that a text spells: exactly 81 characters, each a digit, read in
/// row-major order. Any other text spells no grid.
pub open spec fn parse_spec(text: Seq<char>) -> Option<Seq<SudokuValue>> {
    if text.len() == 81 && forall|i: int| 0 <= i < 81 ==> value_of_char(#[trigger] text[i]) is Some {
        Some(Seq::new(81, |i: int| value_of_char(text[i])->Some_0))
    } else {
        None
    }
}

/// The text of a grid: the character of each value, in row-major order.
pub open spec fn serialize_spec(s: Seq<SudokuValue>) -> Seq<char> {
    Seq::new(s.len(), |i: int| s[i].spec_char())
}

/// A 9x9 grid of values. A board is a value: no operation changes one, and
/// `replace` hands out a new board.
#[derive(Debug, PartialEq, Eq)]
pub struct SudokuProblem {
    puzzle: [SudokuValue; 81],
}

impl View for SudokuProblem {
    type V = Seq<SudokuValue>;

    /// The 81 values in row-major order.
    closed spec fn view(&self) -> Seq<SudokuValue> {
        self.puzzle@
    }
}

impl Clone for SudokuProblem {
    /// A board with the same 81 values.
    fn clone(&self) -> (r: Self)
        ensures
            r@ == self@,
    {
        SudokuProblem { puzzle: self.puzzle }
    }
}

impl Default for SudokuProblem {
    /// The board on which every cell is blank.
    fn default() -> (r: Self)
        ensures
            r@ == blank_grid(),
    {
        let mut puzzle: [SudokuValue; 81] = [SudokuValue::Unknown;81];
        // Written once more cell by cell: the proof knows what an assignment
        // stores, not what the array was created with.
        let mut i: usize = 0;
        while i < 81
            invariant
                i <= 81,
                forall|k: int| 0 <= k < i ==> puzzle@[k] == SudokuValue::Unknown,
            decreases 81 - i,
        {
            puzzle[i] = SudokuValue::Unknown;
            i += 1;
        }
        let r = SudokuProblem { puzzle };
        assert(r@ =~= blank_grid());
        r
    }
}

impl std::str::FromStr for SudokuProblem {
    type Err = SudokuError;

    /// Reads a board from its text, as `SudokuProblem::from_str` does.
    fn from_str(sdm: &str) -> (r: Result<Self, SudokuError>)
        ensures
            match r {
                Ok(board) => parse_spec(sdm@) == Some(board@),
                Err(e) => e == SudokuError::Malformed && parse_spec(sdm@) is None,
            },
    {
        SudokuProblem::from_str(sdm)
    }
}

impl SudokuProblem {
    /// A board always has 81 cells.
    pub proof fn lemma_len(&self)
        ensures
            self@.len() == 81,
    {
    }

    /// The board that holds the given values, in row-major order.
    pub fn new(puzzle: [SudokuValue; 81]) -> (r: Self)
        ensures
            r@ == puzzle@,
    {
        SudokuProblem { puzzle }
    }

    /// Reads a board from its text: exactly 81 digits in row-major order,
    /// `'0'` for a blank cell. Any other text is refused with `Malformed`.
    pub fn from_str(sdm: &str) -> (r: Result<SudokuProblem, SudokuError>)
        ensures
            match r {
                Ok(board) => parse_spec(sdm@) == Some(board@),
                Err(e) => e == SudokuError::Malformed && parse_spec(sdm@) is None,
            },
    {
        if sdm.unicode_len() != 81 {
            return Err(SudokuError::Malformed);
        }
        let mut puzzle: [SudokuValue; 81] = [SudokuValue::Unknown;81];
        let mut i: usize = 0;
        while i < 81
            invariant
                i <= 81,
                sdm@.len() == 81,
                forall|k: int| 0 <= k < i ==> value_of_char(sdm@[k]) == Some(#[trigger] puzzle@[k]),
            decreases 81 - i,
        {
            match SudokuValue::try_from(sdm.get_char(i)) {
                Ok(value) => {
                    puzzle[i] = value;
                },
                Err(_) => {
                    assert(value_of_char(sdm@[i as int]) is None);
                    return Err(SudokuError::Malformed);
                },
            }
            i += 1;
        }
        let board = SudokuProblem::new(puzzle);
        proof {
            assert forall|k: int| 0 <= k < 81 implies value_of_char(#[trigger] sdm@[k]) is Some by {
                assert(value_of_char(sdm@[k]) == Some(puzzle@[k]));
            }
            assert(board@ =~= parse_spec(sdm@)->Some_0);
        }
        Ok(board)
    }

    /// Writes the board as its text: 81 digits in row-major order, `'0'` for
    /// a blank cell.
    pub fn to_string(&self) -> (r: String)
        ensures
            r@ == serialize_spec(self@),
    {
        let mut text = String::new();
        let mut i: usize = 0;
        while i < 81
            invariant
                i <= 81,
                text@.len() == i,
                forall|k: int| 0 <= k < i ==> text@[k] == self@[k].spec_char(),
            decreases 81 - i,
        {
            text.append(digit_text(self.puzzle[i]));
            i += 1;
        }
        assert(text@ =~= serialize_spec(self@));
        text
    }

    /// The nine rows, top to bottom, each left to right.
    pub fn rows(&self) -> (r: Vec<[SudokuValue; 9]>)
        ensures
            r@.len() == 9,
            forall|k: int| 0 <= k < 9 ==> (#[trigger] r@[k])@ == row_group(self@, k),
    {
        let mut rows: Vec<[SudokuValue; 9]> = Vec::with_capacity(9);
        let mut i: usize = 0;
        while i < 9
            invariant
                i <= 9,
                rows@.len() == i,
                forall|k: int| 0 <= k < i ==> (#[trigger] rows@[k])@ == row_group(self@, k),
            decreases 9 - i,
        {
            let mut row: [SudokuValue; 9] = [SudokuValue::Unknown;9];
            let mut j: usize = 0;
            while j < 9
                invariant
                    i < 9,
                    j <= 9,
                    forall|y: int| 0 <= y < j ==> row@[y] == self@[i * 9 + y],
                decreases 9 - j,
            {
                row[j] = self.puzzle[i * 9 + j];
                j += 1;
            }
            assert(row@ =~= row_group(self@, i as int));
            rows.push(row);
            i += 1;
        }
        rows
    }

    /// The nine columns, left to right, each top to bottom.
    pub fn columns(&self) -> (r: Vec<[SudokuValue; 9]>)
        ensures
            r@.len() == 9,
            forall|k: int| 0 <= k < 9 ==> (#[trigger] r@[k])@ == column_group(self@, k),
    {
        let mut columns: Vec<[SudokuValue; 9]> = Vec::with_capacity(9);
        let mut j: usize = 0;
        while j < 9
            invariant
                j <= 9,
                columns@.len() == j,
                forall|k: int| 0 <= k < j ==> (#[trigger] columns@[k])@ == column_group(self@, k),
            decreases 9 - j,
        {
            let mut column: [SudokuValue; 9] = [SudokuValue::Unknown;9];
            let mut i: usize = 0;
            while i < 9
                invariant
                    j < 9,
                    i <= 9,
                    forall|y: int| 0 <= y < i ==> column@[y] == self@[y * 9 + j],
                decreases 9 - i,
            {
                let index: usize = i * 9 + j;
                column[i] = self.puzzle[index];
                i += 1;
            }
            assert(column@ =~= column_group(self@, j as int));
            columns.push(column);
            j += 1;
        }
        columns
    }

    /// The nine boxes, left to right and then top to bottom, each scanned the
    /// same way.
    pub fn squares(&self) -> (r: Vec<[SudokuValue; 9]>)
        ensures
            r@.len() == 9,
            forall|k: int| 0 <= k < 9 ==> (#[trigger] r@[k])@ == box_group(self@, k),
    {
        let mut squares: Vec<[SudokuValue; 9]> = Vec::with_capacity(9);
        let mut x: usize = 0;
        while x < 9
            invariant
                x <= 9,
                squares@.len() == x,
                forall|k: int| 0 <= k < x ==> (#[trigger] squares@[k])@ == box_group(self@, k),
            decreases 9 - x,
        {
            let mut square: [SudokuValue; 9] = [SudokuValue::Unknown;9];
            let a: usize = x / 3;
            let b: usize = x % 3;
            let initial: usize = (a * 9 * 3) + (b * 3);
            let mut y: usize = 0;
            while y < 9
                invariant
                    x < 9,
                    y <= 9,
                    initial == box_base(x as int),
                    forall|z: int|
                        0 <= z < y ==> square@[z] == self@[box_base(x as int) + (z / 3) * 9 + (z
                            % 3)],
                decreases 9 - y,
            {
                square[y] = self.puzzle[initial + ((y / 3) * 9) + (y % 3)];
                y += 1;
            }
            assert(square@ =~= box_group(self@, x as int));
            squares.push(square);
            x += 1;
        }
        squares
    }

    /// Whether no digit occurs twice in any row, column or box. Blank cells
    /// never conflict.
    pub fn is_valid(&self) -> (r: bool)
        ensures
            r == grid_valid(self@),
    {
        let rows = self.rows();
        let columns = self.columns();
        let squares = self.squares();
        let rows_ok = all_sections_valid(&rows);
        let columns_ok = all_sections_valid(&columns);
        let squares_ok = all_sections_valid(&squares);
        proof {
            assert(rows_ok == rows_valid(self@)) by {
                if rows_ok {
                    assert forall|k: int| 0 <= k < 9 implies group_valid(
                        #[trigger] row_group(self@, k),
                    ) by {
                        assert(rows@[k]@ == row_group(self@, k));
                    }
                }
                if rows_valid(self@) {
                    assert forall|k: int| 0 <= k < rows@.len() implies group_valid(
                        (#[trigger] rows@[k])@,
                    ) by {
                        assert(rows@[k]@ == row_group(self@, k));
                    }
                }
            }
            assert(columns_ok == columns_valid(self@)) by {
                if columns_ok {
                    assert forall|k: int| 0 <= k < 9 implies group_valid(
                        #[trigger] column_group(self@, k),
                    ) by {
                        assert(columns@[k]@ == column_group(self@, k));
                    }
                }
                if columns_valid(self@) {
                    assert forall|k: int| 0 <= k < columns@.len() implies group_valid(
                        (#[trigger] columns@[k])@,
                    ) by {
                        assert(columns@[k]@ == column_group(self@, k));
                    }
                }
            }
            assert(squares_ok == boxes_valid(self@)) by {
                if squares_ok {
                    assert forall|k: int| 0 <= k < 9 implies group_valid(
                        #[trigger] box_group(self@, k),
                    ) by {
                        assert(squares@[k]@ == box_group(self@, k));
                    }
                }
                if boxes_valid(self@) {
                    assert forall|k: int| 0 <= k < squares@.len() implies group_valid(
                        (#[trigger] squares@[k])@,
                    ) by {
                        assert(squares@[k]@ == box_group(self@, k));
                    }
                }
            }
        }
        rows_ok && columns_ok && squares_ok
    }

    /// Whether no cell is blank. This says nothing of validity: a full board
    /// may still repeat a digit.
    pub fn is_complete(&self) -> (r: bool)
        ensures
            r == grid_complete(self@),
    {
        let mut i: usize = 0;
        while i < 81
            invariant
                i <= 81,
                forall|k: int| 0 <= k < i ==> self@[k] != SudokuValue::Unknown,
            decreases 81 - i,
        {
            if self.puzzle[i] == SudokuValue::Unknown {
                return false;
            }
            i += 1;
        }
        true
    }

    /// A new board that holds `value` at `cell` and agrees with this one
    /// everywhere else. This board is left as it was.
    pub fn replace(&self, cell: &Cell, value: SudokuValue) -> (r: SudokuProblem)
        ensures
            r@ == self@.update(cell.spec_index() as int, value),
    {
        let mut puzzle = self.puzzle;
        puzzle[cell.linear_index()] = value;
        SudokuProblem::new(puzzle)
    }

    /// The first cell in row-major order that holds `value`, if any does.
    pub fn position(&self, value: &SudokuValue) -> (r: Option<Cell>)
        ensures
            match r {
                Some(cell) => {
                    &&& cell.spec_index() < 81
                    &&& cell.spec_row() == cell.spec_index() / 9
                    &&& cell.spec_column() == cell.spec_index() % 9
                    &&& self@[cell.spec_index() as int] == *value
                    &&& forall|k: int| 0 <= k < cell.spec_index() ==> self@[k] != *value
                },
                None => forall|k: int| 0 <= k < 81 ==> self@[k] != *value,
            },
            *value == SudokuValue::Unknown ==> (r is None <==> grid_complete(self@)),
    {
        let mut i: usize = 0;
        while i < 81
            invariant
                i <= 81,
                forall|k: int| 0 <= k < i ==> self@[k] != *value,
            decreases 81 - i,
        {
            if self.puzzle[i] == *value {
                return match Cell::index(i) {
                    Ok(cell) => Some(cell),
                    Err(_) => None,
                };
            }
            i += 1;
        }
        None
    }
}

impl SudokuValue {
    /// The slot of a digit in a table of nine counters; the blank has none.
    pub fn to_count_index(&self) -> (r: Option<usize>)
        ensures
            r == if *self == SudokuValue::Unknown {
                None::<usize>
            } else {
                Some((self.digit() - 1) as usize)
            },
    {
        match self {
            SudokuValue::Unknown => None,
            SudokuValue::One => Some(0),
            SudokuValue::Two => Some(1),
            SudokuValue::Three => Some(2),
            SudokuValue::Four => Some(3),
            SudokuValue::Five => Some(4),
            SudokuValue::Six => Some(5),
            SudokuValue::Seven => Some(6),
            SudokuValue::Eight => Some(7),
            SudokuValue::Nine => Some(8),
        }
    }
}

/// The one-character text of a value.
fn digit_text(value: SudokuValue) -> (s: &'static str)
    ensures
        s@ == seq![value.spec_char()],
{
    proof {
        reveal_strlit("0");
        reveal_strlit("1");
        reveal_strlit("2");
        reveal_strlit("3");
        reveal_strlit("4");
        reveal_strlit("5");
        reveal_strlit("6");
        reveal_strlit("7");
        reveal_strlit("8");
        reveal_strlit("9");
    }
    let s = match value {
        SudokuValue::Unknown => "0",
        SudokuValue::One => "1",
        SudokuValue::Two => "2",
        SudokuValue::Three => "3",
        SudokuValue::Four => "4",
        SudokuValue::Five => "5",
        SudokuValue::Six => "6",
        SudokuValue::Seven => "7",
        SudokuValue::Eight => "8",
        SudokuValue::Nine => "9",
    };
    assert(s@ =~= seq![value.spec_char()]);
    s
}

/// Whether no digit occurs twice in one group of nine cells.
fn section_valid(section: &[SudokuValue; 9]) -> (ok: bool)
    ensures
        ok == group_valid(section@),
{
    let mut counts: [usize; 9] = [0, 0, 0, 0, 0, 0, 0, 0, 0];
    let mut i: usize = 0;
    while i < 9
        invariant
            i <= 9,
            forall|d: int| 0 <= d < 9 ==> counts@[d] <= 1,
            forall|d: int|
                0 <= d < 9 ==> (counts@[d] == 1 <==> exists|j: int|
                    0 <= j < i && (#[trigger] section@[j]).digit() == d + 1),
            forall|a: int, b: int|
                0 <= a < b < i && section@[a] != SudokuValue::Unknown ==> section@[a]
                    != section@[b],
        decreases 9 - i,
    {
        let value = section[i];
        if let Some(index) = value.to_count_index() {
            let ghost before = counts@;
            counts[index] += 1;
            if counts[index] > 1 {
                proof {
                    assert(before[index as int] == 1);
                    let j = choose|j: int|
                        0 <= j < i && (#[trigger] section@[j]).digit() == index + 1;
                    assert(section@[j] == section@[i as int]);
                }
                return false;
            }
            assert forall|a: int, b: int|
                0 <= a < b < i + 1 && section@[a] != SudokuValue::Unknown implies section@[a]
                != section@[b] by {
                if b == i && section@[a] == section@[b] {
                    assert(section@[a].digit() == index + 1);
                }
            }
            assert forall|d: int| 0 <= d < 9 implies (counts@[d] == 1 <==> exists|j: int|
                0 <= j < i + 1 && (#[trigger] section@[j]).digit() == d + 1) by {
                if d == index {
                    assert(section@[i as int].digit() == d + 1);
                } else {
                    if before[d] == 1 {
                        let j = choose|j: int|
                            0 <= j < i && (#[trigger] section@[j]).digit() == d + 1;
                        assert(0 <= j < i + 1 && section@[j].digit() == d + 1);
                    }
                }
            }
        }
        i += 1;
    }
    true
}

/// Whether each of the given groups is free of repeated digits.
fn all_sections_valid(sections: &Vec<[SudokuValue; 9]>) -> (ok: bool)
    ensures
        ok == forall|k: int| 0 <= k < sections@.len() ==> group_valid((#[trigger] sections@[k])@),
{
    let mut k: usize = 0;
    while k < sections.len()
        invariant
            k <= sections@.len(),
            forall|m: int| 0 <= m < k ==> group_valid((#[trigger] sections@[m])@),
        decreases sections@.len() - k,
    {
        if !section_valid(&sections[k]) {
            return false;
        }
        k += 1;
    }
    true
}

} // verus!
