//! Board geometry, derived from cell indices: cell `i` lies in row `i / 9`,
//! column `i % 9` and box `(row / 3) * 3 + col / 3`.
use vstd::prelude::*;

verus! {

/// Number of cells on the board.
pub const SIZE: usize = 81;

/// Number of cells in a row, a column or a box.
pub const WIDTH: usize = 9;

pub open spec fn row_of(i: int) -> int {
    i / 9
}

pub open spec fn col_of(i: int) -> int {
    i % 9
}

pub open spec fn box_of(i: int) -> int {
    (i / 27) * 3 + (i % 9) / 3
}

/// One of the three kinds of unit: rows, columns and boxes.
#[derive(Clone, Copy, PartialEq, Eq, Structural, Debug)]
pub enum Unit {
    Row,
    Col,
    Box,
}

/// The index (0 to 8) of the unit of kind `u` that holds cell `i`.
pub open spec fn unit_of(u: Unit, i: int) -> int {
    match u {
        Unit::Row => row_of(i),
        Unit::Col => col_of(i),
        Unit::Box => box_of(i),
    }
}

pub open spec fn is_cell(i: int) -> bool {
    0 <= i < 81
}

/// Two different cells that share a unit of kind `u`.
pub open spec fn unit_peers(u: Unit, i: int, j: int) -> bool {
    is_cell(i) && is_cell(j) && i != j && unit_of(u, i) == unit_of(u, j)
}

/// Two different cells that share a row, a column or a box.
pub open spec fn is_peer(i: int, j: int) -> bool {
    is_cell(i) && is_cell(j) && i != j && (row_of(i) == row_of(j) || col_of(i) == col_of(j)
        || box_of(i) == box_of(j))
}

pub proof fn lemma_unit_bounds(i: int)
    requires
        is_cell(i),
    ensures
        0 <= row_of(i) < 9,
        0 <= col_of(i) < 9,
        0 <= box_of(i) < 9,
{
}

pub proof fn lemma_unit_peers_are_peers(u: Unit, i: int, j: int)
    requires
        unit_peers(u, i, j),
    ensures
        is_peer(i, j),
        is_peer(j, i),
        unit_peers(u, j, i),
{
}

/// The first row (for `Unit::Row`) or column (for `Unit::Col`) that crosses
/// box `b`.
pub open spec fn line_base(u: Unit, b: int) -> int {
    match u {
        Unit::Row => (b / 3) * 3,
        Unit::Col => (b % 3) * 3,
        Unit::Box => 0,
    }
}

/// A row or column crosses a box in three consecutive lines, starting at
/// [`line_base`].
pub proof fn lemma_line_in_box(u: Unit, c: int)
    requires
        is_cell(c),
        u != Unit::Box,
    ensures
        unit_of(u, c) == line_base(u, box_of(c)) + unit_of(u, c) % 3,
{
    let row = c / 9;
    let col = c % 9;
    assert(c == 9 * row + col);
    assert(c == 27 * (row / 3) + (9 * (row % 3) + col));
    assert(c / 27 == row / 3);
    assert(box_of(c) == (row / 3) * 3 + col / 3);
    assert(box_of(c) / 3 == row / 3);
    assert(box_of(c) % 3 == col / 3);
}

pub fn get_row(idx: usize) -> (r: usize)
    requires
        idx < SIZE,
    ensures
        r == row_of(idx as int),
        r < WIDTH,
{
    idx / WIDTH
}

pub fn get_col(idx: usize) -> (c: usize)
    requires
        idx < SIZE,
    ensures
        c == col_of(idx as int),
        c < WIDTH,
{
    idx % WIDTH
}

pub fn get_box(idx: usize) -> (b: usize)
    requires
        idx < SIZE,
    ensures
        b == box_of(idx as int),
        b < WIDTH,
{
    (idx / 27) * 3 + (idx % WIDTH) / 3
}

/// The index of the unit of kind `u` that holds cell `idx`.
pub fn get_unit(u: Unit, idx: usize) -> (k: usize)
    requires
        idx < SIZE,
    ensures
        k == unit_of(u, idx as int),
        k < WIDTH,
{
    match u {
        Unit::Row => get_row(idx),
        Unit::Col => get_col(idx),
        Unit::Box => get_box(idx),
    }
}

/// Whether cells `i` and `j` are peers.
pub fn peers(i: usize, j: usize) -> (r: bool)
    requires
        i < SIZE,
        j < SIZE,
    ensures
        r == is_peer(i as int, j as int),
{
    i != j && (get_row(i) == get_row(j) || get_col(i) == get_col(j) || get_box(i) == get_box(j))
}

} // verus!
