use vstd::prelude::*;

use super::prelude::Position;

verus! {

/// A move that is being picked one cell at a time.
#[derive(Clone, Copy, Debug, PartialEq, Eq, Structural)]
pub enum PartialTurn {
    /// Waiting for a worker to move.
    Nothing,
    /// A worker is picked; waiting for where it goes.
    Selection(Position),
    /// The worker and where it goes are picked; waiting for where to build.
    Move(Position, Position),
    /// Waiting for the cell of the first worker to place.
    NothingSetup,
    /// The first worker's cell is picked; waiting for the second.
    PartialSetup(Position),
}

/// A whole move.
#[derive(Clone, Copy, Debug, PartialEq, Eq, Structural)]
pub enum Turn {
    /// Places both workers of the player.
    Setup(Position, Position),
    /// Moves a worker, then builds next to where it went.
    MoveBuild { start: Position, end: Position, build: Position },
    /// Moves a worker onto the third level, which wins the game.
    FinalMove { start: Position, end: Position },
}

impl Turn {
    /// Every cell the turn names is a cell of the grid.
    pub open spec fn valid(self) -> bool {
        match self {
            Turn::Setup(p1, p2) => p1.inv() && p2.inv(),
            Turn::MoveBuild { start, end, build } => start.inv() && end.inv() && build.inv(),
            Turn::FinalMove { start, end } => start.inv() && end.inv(),
        }
    }
}

} // verus!
