//! What holds of every board: how text and board correspond, and what
//! validity means cell by cell.

use crate::model::board::{
    blank_grid, box_base, box_group, boxes_valid, column_group, columns_valid, grid_complete,
    grid_valid, group_valid, parse_spec, row_group, rows_valid, serialize_spec, SudokuProblem,
};
use crate::model::cell::{value_of_char, SudokuValue};
use vstd::prelude::*;

verus! {

/// The two cells lie in the same row.
pub open spec fn same_row(i: int, j: int) -> bool {
    i / 9 == j / 9
}

/// The two cells lie in the same column.
pub open spec fn same_column(i: int, j: int) -> bool {
    i % 9 == j % 9
}

/// The two cells lie in the same 3x3 box.
pub open spec fn same_box(i: int, j: int) -> bool {
    i / 27 == j / 27 && (i % 9) / 3 == (j % 9) / 3
}

/// Two distinct cells of one row, column or box hold the same digit.
pub open spec fn conflict(s: Seq<SudokuValue>, i: int, j: int) -> bool {
    &&& 0 <= i < 81
    &&& 0 <= j < 81
    &&& i != j
    &&& same_row(i, j) || same_column(i, j) || same_box(i, j)
    &&& s[i] != SudokuValue::Unknown
    &&& s[i] == s[j]
}

/// Group `n` of the 27: the rows come first, then the columns, then the boxes.
pub open spec fn group(s: Seq<SudokuValue>, n: int) -> Seq<SudokuValue> {
    if n < 9 {
        row_group(s, n)
    } else if n < 18 {
        column_group(s, n - 9)
    } else {
        box_group(s, n - 18)
    }
}

/// Writing a board and reading the text back gives the same board.
pub proof fn lemma_round_trip(b: SudokuProblem)
    ensures
        parse_spec(serialize_spec(b@)) == Some(b@),
{
    b.lemma_len();
    let text = serialize_spec(b@);
    assert forall|i: int| 0 <= i < 81 implies value_of_char(#[trigger] text[i]) == Some(b@[i]) by {
        SudokuValue::lemma_char_round_trip(b@[i], '0');
    }
    assert(parse_spec(text)->Some_0 =~= b@);
}

/// Reading a text and writing the board gives the same text.
pub proof fn lemma_text_round_trip(text: Seq<char>)
    requires
        parse_spec(text) is Some,
    ensures
        serialize_spec(parse_spec(text)->Some_0) == text,
{
    let s = parse_spec(text)->Some_0;
    assert forall|i: int| 0 <= i < 81 implies s[i].spec_char() == text[i] by {
        assert(value_of_char(text[i]) is Some);
        SudokuValue::lemma_char_round_trip(SudokuValue::Unknown, text[i]);
    }
    assert(serialize_spec(s) =~= text);
}

/// A text is read as a board exactly when it is 81 characters long and every
/// character is an ASCII digit.
pub proof fn lemma_parse_accepts(text: Seq<char>)
    ensures
        parse_spec(text) is Some <==> text.len() == 81 && forall|i: int|
            0 <= i < 81 ==> '0' <= #[trigger] text[i] <= '9',
{
    assert forall|i: int| 0 <= i < text.len() implies (value_of_char(#[trigger] text[i]) is Some
        <==> '0' <= text[i] <= '9') by {
        SudokuValue::lemma_char_round_trip(SudokuValue::Unknown, text[i]);
    }
}

/// Validity is the conjunction of 27 independent group checks: the order in
/// which rows, columns and boxes are looked at makes no difference.
pub proof fn lemma_valid_any_order(s: Seq<SudokuValue>)
    ensures
        grid_valid(s) == (boxes_valid(s) && columns_valid(s) && rows_valid(s)),
        grid_valid(s) == (columns_valid(s) && rows_valid(s) && boxes_valid(s)),
        grid_valid(s) == forall|n: int| 0 <= n < 27 ==> group_valid(#[trigger] group(s, n)),
{
    if grid_valid(s) {
        assert forall|n: int| 0 <= n < 27 implies group_valid(#[trigger] group(s, n)) by {
            if n < 9 {
                assert(group_valid(row_group(s, n)));
            } else if n < 18 {
                assert(group_valid(column_group(s, n - 9)));
            } else {
                assert(group_valid(box_group(s, n - 18)));
            }
        }
    }
    if forall|n: int| 0 <= n < 27 ==> group_valid(#[trigger] group(s, n)) {
        assert forall|k: int| 0 <= k < 9 implies group_valid(#[trigger] row_group(s, k)) by {
            assert(group(s, k) == row_group(s, k));
        }
        assert forall|k: int| 0 <= k < 9 implies group_valid(#[trigger] column_group(s, k)) by {
            assert(group(s, k + 9) == column_group(s, k));
        }
        assert forall|k: int| 0 <= k < 9 implies group_valid(#[trigger] box_group(s, k)) by {
            assert(group(s, k + 18) == box_group(s, k));
        }
    }
}

/// The blank board breaks no constraint and is not complete.
pub proof fn lemma_blank_grid()
    ensures
        grid_valid(blank_grid()),
        !grid_complete(blank_grid()),
{
    let s = blank_grid();
    assert forall|k: int| 0 <= k < 9 implies group_valid(#[trigger] row_group(s, k)) by {}
    assert forall|k: int| 0 <= k < 9 implies group_valid(#[trigger] column_group(s, k)) by {}
    assert forall|k: int| 0 <= k < 9 implies group_valid(#[trigger] box_group(s, k)) by {}
    assert(s[0] == SudokuValue::Unknown);
}

/// A board is complete exactly when it holds no blank.
pub proof fn lemma_complete_no_blank(b: SudokuProblem)
    ensures
        grid_complete(b@) <==> !b@.contains(SudokuValue::Unknown),
{
    b.lemma_len();
    if !grid_complete(b@) {
        let i = choose|i: int| 0 <= i < b@.len() && b@[i] == SudokuValue::Unknown;
        assert(b@.contains(SudokuValue::Unknown));
    }
}

/// Replacing one cell changes that cell and no other.
pub proof fn lemma_replace_isolated(s: Seq<SudokuValue>, k: int, v: SudokuValue)
    requires
        0 <= k < s.len(),
    ensures
        s.update(k, v).len() == s.len(),
        s.update(k, v)[k] == v,
        forall|i: int| 0 <= i < s.len() && i != k ==> s.update(k, v)[i] == s[i],
{
}

/// The box that a cell lies in.
pub open spec fn box_of(i: int) -> int {
    (i / 27) * 3 + (i % 9) / 3
}

/// The place of a cell within its box, in the order in which a box is scanned.
pub open spec fn place_in_box(i: int) -> int {
    ((i / 9) % 3) * 3 + i % 3
}

/// The cell at place `y` of box `k`.
pub open spec fn box_cell(k: int, y: int) -> int {
    box_base(k) + (y / 3) * 9 + (y % 3)
}

/// Every cell is the cell at its place in its box.
pub proof fn lemma_cell_in_box(i: int)
    requires
        0 <= i < 81,
    ensures
        0 <= box_of(i) < 9,
        0 <= place_in_box(i) < 9,
        box_cell(box_of(i), place_in_box(i)) == i,
{
    let q1 = i / 27;
    let q2 = (i / 9) % 3;
    let q3 = (i % 9) / 3;
    let r3 = i % 3;
    assert(i == 27 * q1 + 9 * q2 + 3 * q3 + r3);
    assert(box_of(i) == 3 * q1 + q3);
    assert(place_in_box(i) == 3 * q2 + r3);
}

/// The cell at a place of a box lies in that box, at that place.
pub proof fn lemma_box_cell(k: int, y: int)
    requires
        0 <= k < 9,
        0 <= y < 9,
    ensures
        0 <= box_cell(k, y) < 81,
        box_of(box_cell(k, y)) == k,
        place_in_box(box_cell(k, y)) == y,
{
    let q1 = k / 3;
    let q3 = k % 3;
    let q2 = y / 3;
    let r3 = y % 3;
    let i = box_cell(k, y);
    assert(i == 27 * q1 + 9 * q2 + 3 * q3 + r3);
    assert(i / 27 == q1);
    assert(i / 9 == 3 * q1 + q2);
    assert(i % 9 == 3 * q3 + r3);
    assert(i % 3 == r3);
}

/// Two cells share a box exactly when they have the same box number.
pub proof fn lemma_same_box(i: int, j: int)
    requires
        0 <= i < 81,
        0 <= j < 81,
    ensures
        same_box(i, j) <==> box_of(i) == box_of(j),
{
}

proof fn lemma_row_conflict(s: Seq<SudokuValue>, a: int, b: int)
    requires
        s.len() == 81,
        0 <= a < b < 81,
        same_row(a, b),
        s[a] != SudokuValue::Unknown,
        s[a] == s[b],
    ensures
        !rows_valid(s),
{
    let g = row_group(s, a / 9);
    assert(g[a % 9] == s[a] && g[b % 9] == s[b]);
    assert(!group_valid(g));
}

proof fn lemma_column_conflict(s: Seq<SudokuValue>, a: int, b: int)
    requires
        s.len() == 81,
        0 <= a < b < 81,
        same_column(a, b),
        s[a] != SudokuValue::Unknown,
        s[a] == s[b],
    ensures
        !columns_valid(s),
{
    let g = column_group(s, a % 9);
    assert(g[a / 9] == s[a] && g[b / 9] == s[b]);
    assert(!group_valid(g));
}

proof fn lemma_box_conflict(s: Seq<SudokuValue>, a: int, b: int)
    requires
        s.len() == 81,
        0 <= a < b < 81,
        same_box(a, b),
        s[a] != SudokuValue::Unknown,
        s[a] == s[b],
    ensures
        !boxes_valid(s),
{
    lemma_cell_in_box(a);
    lemma_cell_in_box(b);
    lemma_same_box(a, b);
    let k = box_of(a);
    let ya = place_in_box(a);
    let yb = place_in_box(b);
    let g = box_group(s, k);
    assert(box_cell(k, ya) == a && box_cell(k, yb) == b);
    assert(g[ya] == s[a] && g[yb] == s[b]);
    assert(ya < yb) by {
        assert(a == box_base(k) + (ya / 3) * 9 + (ya % 3));
        assert(b == box_base(k) + (yb / 3) * 9 + (yb % 3));
    }
    assert(!group_valid(g));
}

/// A digit that occurs twice in one row, one column or one box makes the
/// board invalid.
pub proof fn lemma_conflict_invalid(s: Seq<SudokuValue>, i: int, j: int)
    requires
        s.len() == 81,
        conflict(s, i, j),
    ensures
        !grid_valid(s),
{
    let a = if i < j { i } else { j };
    let b = if i < j { j } else { i };
    if same_row(a, b) {
        lemma_row_conflict(s, a, b);
    } else if same_column(a, b) {
        lemma_column_conflict(s, a, b);
    } else {
        lemma_box_conflict(s, a, b);
    }
}

/// A board on which no digit occurs twice in a row, a column or a box is
/// valid.
pub proof fn lemma_no_conflict_valid(s: Seq<SudokuValue>)
    requires
        s.len() == 81,
        forall|i: int, j: int| !conflict(s, i, j),
    ensures
        grid_valid(s),
{
    assert forall|k: int| 0 <= k < 9 implies group_valid(#[trigger] row_group(s, k)) by {
        let g = row_group(s, k);
        assert forall|x: int, y: int|
            0 <= x < y < g.len() && g[x] != SudokuValue::Unknown implies g[x] != g[y] by {
            let i = k * 9 + x;
            let j = k * 9 + y;
            assert(same_row(i, j));
            assert(!conflict(s, i, j));
        }
    }
    assert forall|k: int| 0 <= k < 9 implies group_valid(#[trigger] column_group(s, k)) by {
        let g = column_group(s, k);
        assert forall|x: int, y: int|
            0 <= x < y < g.len() && g[x] != SudokuValue::Unknown implies g[x] != g[y] by {
            let i = x * 9 + k;
            let j = y * 9 + k;
            assert(same_column(i, j));
            assert(!conflict(s, i, j));
        }
    }
    assert forall|k: int| 0 <= k < 9 implies group_valid(#[trigger] box_group(s, k)) by {
        let g = box_group(s, k);
        assert forall|x: int, y: int|
            0 <= x < y < g.len() && g[x] != SudokuValue::Unknown implies g[x] != g[y] by {
            let i = box_cell(k, x);
            let j = box_cell(k, y);
            lemma_box_cell(k, x);
            lemma_box_cell(k, y);
            lemma_same_box(i, j);
            assert(g[x] == s[i] && g[y] == s[j]);
            assert(!conflict(s, i, j));
        }
    }
}

} // verus!
