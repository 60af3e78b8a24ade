//! A beam front during one simulation pass: the cell it has just left and
//! the direction it travels.
//!
//! The board is indexed row-major, cell 0 in the bottom-left corner: North
//! adds 5, East adds 1, South subtracts 5, West subtracts 1, and a step off
//! the board yields no next position.

use vstd::prelude::*;

use crate::orientation::Orientation;

verus! {

/// A live beam segment: its current cell and travel direction.
#[derive(Clone, Copy, Debug, PartialEq, Eq, Structural)]
pub struct ActiveLaser {
    pub cell_index: usize,
    pub orientation: Orientation,
}

/// The cell a beam at `cell` travelling in direction `dir` enters next, or
/// `None` when the step leaves the 5x5 board.
pub open spec fn spec_next_position(cell: int, dir: Orientation) -> Option<int> {
    match dir {
        Orientation::North => if cell >= 20 {
            None
        } else {
            Some(cell + 5)
        },
        Orientation::East => if cell % 5 == 4 {
            None
        } else {
            Some(cell + 1)
        },
        Orientation::South => if cell <= 4 {
            None
        } else {
            Some(cell - 5)
        },
        Orientation::West => if cell % 5 == 0 {
            None
        } else {
            Some(cell - 1)
        },
    }
}

impl ActiveLaser {
    /// The next cell this beam enters, or `None` when it runs off the board.
    pub fn next_position(&self) -> (r: Option<usize>)
        requires
            self.cell_index < 25,
        ensures
            r is Some <==> spec_next_position(self.cell_index as int, self.orientation) is Some,
            r matches Some(n) ==> n == spec_next_position(
                self.cell_index as int,
                self.orientation,
            )->0 && n < 25,
    {
        match self.orientation {
            Orientation::North => {
                if self.cell_index >= 20 {
                    None
                } else {
                    Some(self.cell_index + 5)
                }
            },
            Orientation::East => {
                if self.cell_index % 5 == 4 {
                    None
                } else {
                    Some(self.cell_index + 1)
                }
            },
            Orientation::South => {
                if self.cell_index <= 4 {
                    None
                } else {
                    Some(self.cell_index - 5)
                }
            },
            Orientation::West => {
                if self.cell_index % 5 == 0 {
                    None
                } else {
                    Some(self.cell_index - 1)
                }
            },
        }
    }
}

} // verus!
