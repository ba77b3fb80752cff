use vstd::prelude::*;

use crate::game::prelude::Position;
use crate::game::Game;

verus! {

/// What a key press asks of the game.
#[derive(Clone, Copy, Debug, PartialEq, Eq, Structural)]
pub enum Message {
    Select,
    Up,
    Down,
    Left,
    Right,
    Quit,
    Reset,
}

/// Picks `position` when it may be picked now; otherwise leaves the game as
/// it is.
pub fn select(game: &mut Game, position: Position)
    requires
        old(game).wf(),
    ensures
        final(game).wf(),
        !old(game).selectable_view().contains(position@) ==> *final(game) == *old(game),
        old(game).selectable_view().contains(position@) ==> old(game).selection_step(
            *final(game),
            position,
        ),
{
    if !game.selectable().contains(position) {
        return ;
    }
    game.register_selection(position);
}

} // verus!
