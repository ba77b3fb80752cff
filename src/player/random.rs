use vstd::prelude::*;

use rand::seq::IndexedRandom;

use super::Player;
use crate::game::board::Board;
use crate::game::turn::Turn;

verus! {

/// Relies on rand's `IndexedRandom::choose`: `None` on an empty slice, else
/// one of its elements.
#[verifier::external_body]
fn random_choice(moves: &Vec<Turn>) -> (r: Option<Turn>)
    ensures
        moves@.len() == 0 <==> r is None,
        r matches Some(t) ==> moves@.contains(t),
{
    moves.as_slice().choose(&mut rand::rng()).copied()
}

/// Picks one of the possible turns at random.
pub struct RandomPlayer;

impl Player for RandomPlayer {
    fn play(&self, board: &Board) -> (r: Turn) {
        let possible_moves = board.possible_move();
        proof {
            let t = choose|t: Turn| #[trigger] board@.generates(t);
            assert(possible_moves@.contains(t));
        }
        match random_choice(&possible_moves) {
            Some(turn) => turn,
            None => possible_moves[0],
        }
    }
}

} // verus!
