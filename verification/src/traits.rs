//! The board contract: every implementation exposes its state as an abstract
//! grid (see [`crate::model`]) and promises the placement, gravity, chain,
//! and query behavior below. The capability interfaces for two-cell pieces
//! are declared here as well; no component of this crate implements them.

use vstd::prelude::*;

verus! {

use crate::model::{chain_rounds, empty_grid, gravity_grid, render_grid, settled, stacked_col, terminal, wf_grid};
use crate::types::{ChainInfo, PuyoColor, Position};

/// The three recoverable placement failures. No board operation panics;
/// these are returned to the caller.
#[derive(Debug, Clone, PartialEq, Eq, Structural)]
pub enum PlacementError {
    OutOfBounds,
    PositionOccupied,
    GameOver,
}

impl PlacementError {
    /// A human-readable description of the failure.
    pub fn describe(&self) -> (r: &'static str)
        ensures
            self is OutOfBounds ==> r@ == "Position is out of bounds"@,
            self is PositionOccupied ==> r@ == "Position is already occupied"@,
            self is GameOver ==> r@ == "Game is over"@,
    {
        match self {
            PlacementError::OutOfBounds => "Position is out of bounds",
            PlacementError::PositionOccupied => "Position is already occupied",
            PlacementError::GameOver => "Game is over",
        }
    }
}

/// A puzzle board: a 6-column by 13-row grid of cells mutated by piece
/// placement, gravity, and chain resolution.
///
/// The spec function [`PuyoBoard::grid`] is the abstract state every
/// contract speaks about; [`PuyoBoard::wf`] is the representation invariant,
/// established by construction and preserved by every operation.
pub trait PuyoBoard: Sized {
    /// The abstract state: 6 columns of 13 three-bit cell codes, row 0 at
    /// the bottom.
    spec fn grid(&self) -> Seq<Seq<u8>>;

    /// Representation invariant of the implementation.
    spec fn wf(&self) -> bool;

    /// A well-formed board models a well-formed grid.
    proof fn wf_grid_lemma(&self)
        requires
            self.wf(),
        ensures
            wf_grid(self.grid()),
    ;

    /// Places `color` at `position`. Checks run in the order bounds, then
    /// occupancy, then the terminal gate: a full cell on a terminal board
    /// still reports `PositionOccupied`, while an empty cell on a terminal
    /// board reports `GameOver`.
    fn place_puyo(&mut self, position: Position, color: PuyoColor) -> (r: Result<
        (),
        PlacementError,
    >)
        requires
            old(self).wf(),
        ensures
            final(self).wf(),
            r is Ok <==> position.spec_is_valid() && old(self).grid()[position.x as int][position.y as int]
                == 0 && !terminal(old(self).grid()),
            r == Result::<(), PlacementError>::Err(PlacementError::OutOfBounds)
                <==> !position.spec_is_valid(),
            r == Result::<(), PlacementError>::Err(PlacementError::PositionOccupied)
                <==> position.spec_is_valid() && old(self).grid()[position.x as int][position.y as int]
                != 0,
            r == Result::<(), PlacementError>::Err(PlacementError::GameOver)
                <==> position.spec_is_valid() && old(self).grid()[position.x as int][position.y as int]
                == 0 && terminal(old(self).grid()),
            r is Ok ==> final(self).grid() == old(self).grid().update(
                position.x as int,
                old(self).grid()[position.x as int].update(position.y as int, color.as_bits()),
            ),
            !(r is Ok) ==> final(self).grid() == old(self).grid(),
    ;

    /// Reads the cell at `position`; `None` exactly for out-of-range
    /// coordinates, so reads never fail.
    fn get_puyo(&self, position: Position) -> (r: Option<PuyoColor>)
        requires
            self.wf(),
        ensures
            position.spec_is_valid() ==> r == PuyoColor::spec_from_bits(
                self.grid()[position.x as int][position.y as int],
            ) && r is Some,
            !position.spec_is_valid() ==> r is None,
    ;

    /// Compacts every column downward, preserving the relative order of its
    /// occupied cells; afterwards every column satisfies the stacking
    /// invariant.
    fn apply_gravity(&mut self)
        requires
            old(self).wf(),
        ensures
            final(self).wf(),
            final(self).grid() == gravity_grid(old(self).grid()),
            forall|c: int| 0 <= c < 6 ==> stacked_col(#[trigger] final(self).grid()[c]),
    ;

    /// The chain driver: repeatedly clears every group of at least 4
    /// same-colored connected cells and applies gravity, until no such group
    /// remains; returns the number of rounds executed. A round count of 0
    /// means the board had no removable group to begin with.
    fn execute_chains(&mut self) -> (r: ChainInfo)
        requires
            old(self).wf(),
        ensures
            final(self).wf(),
            settled(final(self).grid(), 4),
            final(self).grid() == chain_rounds(old(self).grid(), 4, r.chain_count as nat),
            forall|k: nat|
                k < r.chain_count ==> !settled(
                    #[trigger] chain_rounds(old(self).grid(), 4, k),
                    4,
                ),
            r.chain_count == 0 <==> settled(old(self).grid(), 4),
    ;

    /// Renders the board as 13 lines of 6 glyphs, top row first.
    fn display(&self) -> (r: String)
        ensures
            r@ == render_grid(self.grid()),
    ;

    /// True iff the terminal sentinel cell (column 2, row 11) is occupied;
    /// such a board accepts no further placement.
    fn is_game_over(&self) -> (r: bool)
        ensures
            r == terminal(self.grid()),
    ;

    /// Resets the board to all-empty.
    fn clear(&mut self)
        ensures
            final(self).wf(),
            final(self).grid() == empty_grid(),
    ;
}

/// Capability interface of a two-cell piece: an axis cell and a child cell.
/// Declared for future placement components; nothing in this crate
/// implements it.
pub trait PuyoPair {
    fn get_axis_puyo(&self) -> PuyoColor;

    fn get_child_puyo(&self) -> PuyoColor;
}

/// Orientation of the child cell relative to the axis cell of a pair.
#[derive(Debug, Clone, Copy, PartialEq, Eq, Structural)]
pub enum PuyoPairRotation {
    Up,
    Right,
    Down,
    Left,
}

/// Capability interface for dropping a two-cell piece into a column with an
/// orientation, and for enumerating the legal drops. Declared for future
/// components built on the board contract; nothing in this crate implements
/// it.
pub trait PuyoPlacement<P: PuyoPair> {
    fn place_pair(&mut self, column: usize, rotation: PuyoPairRotation, pair: &P) -> Result<
        (),
        PlacementError,
    >;

    fn get_valid_placements(&self, pair: &P) -> Vec<(usize, PuyoPairRotation)>;
}

} // verus!
