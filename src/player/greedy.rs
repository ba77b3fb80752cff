use vstd::prelude::*;

use crate::game::board::{lemma_generated_turns_are_accepted, Board, BoardModel};
use crate::game::turn::Turn;

verus! {

/// Picks the turn whose resulting board `eval` scores highest.
pub struct Greedy<Eval> {
    pub eval: Eval,
}

/// The index of the highest score; of several equal highest, the last.
pub fn best_index(scores: &Vec<i64>) -> (r: usize)
    requires
        scores@.len() > 0,
    ensures
        r < scores@.len(),
        forall|k: int| 0 <= k < scores@.len() ==> scores@[k] <= scores@[r as int],
        forall|k: int| r < k < scores@.len() ==> scores@[k] < scores@[r as int],
{
    let mut best: usize = 0;
    let mut k: usize = 1;
    while k < scores.len()
        invariant
            0 <= best < k <= scores@.len(),
            forall|j: int| 0 <= j < k ==> scores@[j] <= scores@[best as int],
            forall|j: int| best < j < k ==> scores@[j] < scores@[best as int],
        decreases scores@.len() - k,
    {
        if scores[k] >= scores[best] {
            best = k;
        }
        k = k + 1;
    }
    best
}

impl<Eval: Fn(&Board) -> i64> Greedy<Eval> {
    /// A turn among those that move generation lists, scoring highest
    /// under `eval` once applied.
    pub fn play(&self, board: &Board) -> (r: Turn)
        requires
            forall|b: &Board| #[trigger] self.eval.requires((b,)),
            board@.wf(),
            exists|t: Turn| #[trigger] board@.generates(t),
        ensures
            board@.generates(r),
            exists|moves: Seq<Turn>, boards: Seq<Board>, scores: Seq<i64>, k: int|
                #![trigger moves[k], boards.len(), scores.len()]
                {
                    &&& moves.len() == boards.len() == scores.len()
                    &&& moves.no_duplicates()
                    &&& forall|t: Turn| #[trigger] moves.contains(t) <==> board@.generates(t)
                    &&& forall|j: int|
                        0 <= j < moves.len() ==> (#[trigger] boards[j])@ == board@.after(moves[j])
                            && self.eval.ensures((&boards[j],), scores[j])
                    &&& 0 <= k < moves.len()
                    &&& r == moves[k]
                    &&& forall|j: int| 0 <= j < scores.len() ==> scores[j] <= scores[k]
                    &&& forall|j: int| k < j < scores.len() ==> scores[j] < scores[k]
                },
    {
        let possible_moves = board.possible_move();
        let mut scores: Vec<i64> = Vec::new();
        let ghost mut boards: Seq<Board> = Seq::empty();
        let mut k: usize = 0;
        while k < possible_moves.len()
            invariant
                k <= possible_moves@.len(),
                scores@.len() == k,
                boards.len() == k,
                forall|j: int|
                    0 <= j < k ==> (#[trigger] boards[j])@ == board@.after(possible_moves@[j])
                        && self.eval.ensures((&boards[j],), scores@[j]),
                board@.wf(),
                forall|b: &Board| #[trigger] self.eval.requires((b,)),
                forall|t: Turn| #[trigger] possible_moves@.contains(t) <==> board@.generates(t),
            decreases possible_moves@.len() - k,
        {
            let turn = possible_moves[k];
            proof {
                assert(possible_moves@.contains(turn));
                lemma_generated_turns_are_accepted(board@, turn);
            }
            let next = board.action(&turn).unwrap();
            let score = (self.eval)(&next);
            scores.push(score);
            proof {
                boards = boards.push(next);
            }
            k = k + 1;
        }
        proof {
            let t = choose|t: Turn| #[trigger] board@.generates(t);
            assert(possible_moves@.contains(t));
        }
        let best = best_index(&scores);
        proof {
            assert(possible_moves@.contains(possible_moves@[best as int]));
            assert(forall|j: int|
                0 <= j < possible_moves@.len() ==> (#[trigger] boards[j])@ == board@.after(
                    possible_moves@[j],
                ) && self.eval.ensures((&boards[j],), scores@[j]));
        }
        possible_moves[best]
    }
}

/// Scores a board for the player who just moved: one point for each of
/// that player's workers on the first level, two on the second, three on
/// the third.
pub fn elevation(board: &Board) -> (r: i64)
    ensures
        r == elevation_of(board@),
{
    let player = board.current_player().other_player();
    let meeples = board.get_player_meeple(player);
    let (first_floor, second_floor, third_floor) = board.floors();
    let first = first_floor.intersection(meeples);
    let second = second_floor.intersection(meeples);
    let third = third_floor.intersection(meeples);
    proof {
        first.lemma_finite();
        second.lemma_finite();
        third.lemma_finite();
    }
    (first.len() + second.len() * 2 + third.len() * 3) as i64
}

pub open spec fn elevation_of(board: BoardModel) -> int {
    let meeples = board.workers(board.next.other());
    (board.first.intersect(meeples).len() + 2 * board.second.intersect(meeples).len() + 3
        * board.third.intersect(meeples).len()) as int
}

} // verus!
