use vstd::prelude::*;

verus! {

/// The one way a move can fail: it breaks a rule of the game.
#[derive(Clone, Copy, Debug, PartialEq, Eq, Structural)]
pub enum GameError {
    InvalidMove,
}

pub type Result<T> = core::result::Result<T, GameError>;

} // verus!
