use vstd::prelude::*;

verus! {

/// The content of one square of the grid.
#[derive(Clone, Copy, Debug, PartialEq, Eq, Structural)]
pub enum Cell {
    /// Vacant; never moves.
    Empty,
    /// Granular: falls straight or diagonally, and sinks through water.
    Sand,
    /// Fluid: falls, then spreads sideways.
    Water,
    /// Immovable obstacle.
    Concrete,
}

impl Cell {
    /// Overwrites this cell with `cell`.
    pub fn set_cell(&mut self, cell: Cell)
        ensures
            *final(self) == cell,
    {
        *self = cell;
    }

    /// The numeric code of this cell in the raw cell buffer.
    pub open spec fn code(self) -> u8 {
        match self {
            Cell::Empty => 0,
            Cell::Sand => 1,
            Cell::Water => 2,
            Cell::Concrete => 3,
        }
    }

    /// The numeric code of this cell: `Empty = 0`, `Sand = 1`, `Water = 2`, `Concrete = 3`.
    pub fn to_code(self) -> (r: u8)
        ensures
            r == self.code(),
    {
        match self {
            Cell::Empty => 0,
            Cell::Sand => 1,
            Cell::Water => 2,
            Cell::Concrete => 3,
        }
    }
}

} // verus!
