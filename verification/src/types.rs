//! The basic vocabulary of the engine: cell states, board coordinates,
//! chain-length accounting, and the recoverable placement errors.

use vstd::prelude::*;

verus! {

/// State of one cell: empty, garbage, or one of the five playable colors.
///
/// The packed board encoding stores each state as a three-bit code; the
/// mapping is fixed by [`PuyoColor::to_u8`] (`Empty` is 0, `Garbage` is 1,
/// the colors are 2 through 6; 7 is unused).
#[derive(Debug, Clone, Copy, PartialEq, Eq, Structural)]
pub enum PuyoColor {
    Empty,
    Garbage,
    Red,
    Blue,
    Green,
    Yellow,
    Purple,
}

impl PuyoColor {
    /// Spec-level three-bit code of a cell state.
    pub open spec fn as_bits(self) -> u8 {
        match self {
            PuyoColor::Empty => 0,
            PuyoColor::Garbage => 1,
            PuyoColor::Red => 2,
            PuyoColor::Blue => 3,
            PuyoColor::Green => 4,
            PuyoColor::Yellow => 5,
            PuyoColor::Purple => 6,
        }
    }

    /// Spec-level inverse of [`PuyoColor::as_bits`].
    pub open spec fn spec_from_bits(value: u8) -> Option<PuyoColor> {
        if value == 0 {
            Some(PuyoColor::Empty)
        } else if value == 1 {
            Some(PuyoColor::Garbage)
        } else if value == 2 {
            Some(PuyoColor::Red)
        } else if value == 3 {
            Some(PuyoColor::Blue)
        } else if value == 4 {
            Some(PuyoColor::Green)
        } else if value == 5 {
            Some(PuyoColor::Yellow)
        } else if value == 6 {
            Some(PuyoColor::Purple)
        } else {
            None
        }
    }

    /// Decodes a three-bit cell code; `None` for the unused code 7 and above.
    pub fn from_u8(value: u8) -> (r: Option<Self>)
        ensures
            r == Self::spec_from_bits(value),
            r is Some <==> value <= 6,
            r is Some ==> r->Some_0.as_bits() == value,
    {
        match value {
            0 => Some(Self::Empty),
            1 => Some(Self::Garbage),
            2 => Some(Self::Red),
            3 => Some(Self::Blue),
            4 => Some(Self::Green),
            5 => Some(Self::Yellow),
            6 => Some(Self::Purple),
            _ => None,
        }
    }

    /// Encodes the state as its three-bit cell code.
    pub fn to_u8(self) -> (r: u8)
        ensures
            r == self.as_bits(),
            r <= 6,
    {
        match self {
            PuyoColor::Empty => 0,
            PuyoColor::Garbage => 1,
            PuyoColor::Red => 2,
            PuyoColor::Blue => 3,
            PuyoColor::Green => 4,
            PuyoColor::Yellow => 5,
            PuyoColor::Purple => 6,
        }
    }

    /// Spec-level "is a playable color": neither empty nor garbage.
    pub open spec fn spec_is_colored(self) -> bool {
        2 <= self.as_bits() <= 6
    }

    /// True for the five playable colors; false for `Empty` and `Garbage`.
    /// Only these states may form removable groups.
    pub fn is_colored_puyo(self) -> (r: bool)
        ensures
            r == self.spec_is_colored(),
    {
        match self {
            PuyoColor::Red | PuyoColor::Blue | PuyoColor::Green | PuyoColor::Yellow
            | PuyoColor::Purple => true,
            _ => false,
        }
    }
}

/// A board coordinate: column `x` (0 on the left) and row `y` (0 at the
/// bottom). Values outside the 6-by-13 grid are representable; the board
/// operations reject or ignore them as their contracts state.
#[derive(Debug, Clone, Copy, PartialEq, Eq, Structural)]
pub struct Position {
    pub x: usize,
    pub y: usize,
}

impl Position {
    pub fn new(x: usize, y: usize) -> (r: Self)
        ensures
            r.x == x && r.y == y,
    {
        Self { x, y }
    }

    /// Spec-level bounds check against the 6-by-13 grid.
    pub open spec fn spec_is_valid(self) -> bool {
        self.x < 6 && self.y < 13
    }

    /// True iff the position lies inside the 6-by-13 grid.
    pub fn is_valid_board_position(self) -> (r: bool)
        ensures
            r == self.spec_is_valid(),
    {
        self.x < 6 && self.y < 13
    }

    /// True iff this is the terminal sentinel cell, column 2 row 11: once
    /// that cell is occupied the board is game over.
    pub fn is_game_over_position(self) -> (r: bool)
        ensures
            r == (self.x == 2 && self.y == 11),
    {
        self.x == 2 && self.y == 11
    }
}

/// Running count of clear-then-gravity rounds executed by the chain driver.
#[derive(Debug, Clone)]
pub struct ChainInfo {
    pub chain_count: usize,
}

impl ChainInfo {
    pub fn new() -> (r: Self)
        ensures
            r.chain_count == 0,
    {
        Self { chain_count: 0 }
    }

    /// Records one more completed chain round.
    pub fn add_chain(&mut self)
        requires
            old(self).chain_count < usize::MAX,
        ensures
            final(self).chain_count == old(self).chain_count + 1,
    {
        self.chain_count += 1;
    }
}

impl Default for ChainInfo {
    fn default() -> (r: Self)
        ensures
            r.chain_count == 0,
    {
        Self::new()
    }
}

} // verus!
