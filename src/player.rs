pub mod greedy;
pub mod random;

use vstd::prelude::*;

use crate::game::board::Board;
use crate::game::turn::Turn;

verus! {

/// Decides turns on its own.
pub trait Player: Sized {
    /// A turn among those that move generation lists for `board`.
    fn play(&self, board: &Board) -> (r: Turn)
        requires
            board@.wf(),
            exists|t: Turn| #[trigger] board@.generates(t),
        ensures
            board@.generates(r),
    ;
}

/// Who takes the turns of a player who is not a person.
pub enum Strategy {
    Random(random::RandomPlayer),
    /// Greedy on the elevation of the player who moved.
    Greedy,
}

impl Player for Strategy {
    fn play(&self, board: &Board) -> (r: Turn) {
        match self {
            Strategy::Random(player) => player.play(board),
            Strategy::Greedy => {
                let player = greedy::Greedy { eval: greedy::elevation };
                proof {
                    assert forall|b: &Board| #[trigger] player.eval.requires((b,)) by {}
                }
                player.play(board)
            },
        }
    }
}

/// The strategy listed at `selection` of the choices: a person, a random
/// player, a greedy one.
pub fn get_player_from_selection(selection: usize) -> (r: Option<Strategy>)
    requires
        selection < 3,
    ensures
        selection == 0 <==> r is None,
        selection == 1 <==> r matches Some(Strategy::Random(_)),
        selection == 2 <==> r matches Some(Strategy::Greedy),
{
    match selection {
        0 => None,
        1 => Some(Strategy::Random(random::RandomPlayer)),
        _ => Some(Strategy::Greedy),
    }
}

} // verus!
