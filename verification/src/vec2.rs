use vstd::prelude::*;

verus! {

/// A pair of coordinates or of extents on a character grid: `x` counts
/// columns, `y` counts rows.
#[derive(Clone, Copy, Debug, PartialEq, Eq, Structural)]
pub struct Vec2 {
    pub x: usize,
    pub y: usize,
}

impl Vec2 {
    /// Makes a pair from its two coordinates.
    pub fn new(x: usize, y: usize) -> (r: Vec2)
        ensures
            r.x == x,
            r.y == y,
    {
        Vec2 { x, y }
    }

    /// The strict order of grid pairs: `self` lies before `other` on both axes.
    pub open spec fn lies_within(self, other: Vec2) -> bool {
        self.x < other.x && self.y < other.y
    }

    /// Whether `self < other` in the order of grid pairs, that is whether a
    /// position `self` falls inside a grid of extent `other`.
    pub fn is_inside(&self, other: &Vec2) -> (r: bool)
        ensures
            r == self.lies_within(*other),
            r == (self.x < other.x && self.y < other.y),
    {
        self.x < other.x && self.y < other.y
    }

    /// The number of cells of a grid of this extent.
    pub open spec fn area(self) -> int {
        self.x * self.y
    }
}

/// Counting cells row after row on a grid of `columns` by `rows`: the cell
/// with index `index` sits in column `index % columns` and row `index / columns`,
/// both inside the grid, and from those two the index is found again.
pub proof fn lemma_row_major(index: int, columns: int, rows: int)
    requires
        0 <= index < columns * rows,
        columns >= 0,
        rows >= 0,
    ensures
        columns > 0,
        0 <= index % columns < columns,
        0 <= index / columns < rows,
        index % columns + (index / columns) * columns == index,
{
    assert(columns > 0) by (nonlinear_arith)
        requires
            0 <= index < columns * rows,
            columns >= 0,
            rows >= 0,
    ;
    vstd::arithmetic::div_mod::lemma_fundamental_div_mod(index, columns);
    vstd::arithmetic::div_mod::lemma_div_pos_is_pos(index, columns);
    vstd::arithmetic::mul::lemma_mul_is_commutative(index / columns, columns);
    assert(index / columns < rows) by (nonlinear_arith)
        requires
            index == columns * (index / columns) + index % columns,
            0 <= index % columns,
            index < columns * rows,
            columns > 0,
    ;
}

} // verus!
