pub mod board;
pub mod error;
pub mod prelude;
pub mod turn;

use vstd::prelude::*;
use vstd::string::StringExecFns;

use board::{
    end_of, lemma_after_keeps_wf, lemma_generated_turns_are_accepted, start_of, Board,
    BoardModel,
};
use prelude::{all_cells, is_cell, Construction, Player, Position, PositionSet};
use turn::{PartialTurn, Turn};

verus! {

/// The cell of `t` that matters while `turn` is being built: the worker
/// while nothing is picked, where the picked worker goes, and where the
/// picked move builds.
pub open spec fn picked(turn: PartialTurn, t: Turn) -> Option<Position> {
    match turn {
        PartialTurn::Nothing => start_of(t),
        PartialTurn::Selection(selected) => if start_of(t) == Some(selected) {
            Some(end_of(t))
        } else {
            None
        },
        PartialTurn::Move(selected, target) => match t {
            Turn::MoveBuild { start, end, build } => if start == selected && end == target {
                Some(build)
            } else {
                None
            },
            _ => None,
        },
        _ => None,
    }
}

/// The cells that may be picked next while `turn` is being built on `board`.
pub open spec fn selectable_cells(board: BoardModel, turn: PartialTurn) -> Set<int> {
    match turn {
        PartialTurn::NothingSetup => Set::new(|i: int| is_cell(i) && board.owner(i) is None),
        PartialTurn::PartialSetup(first) => Set::new(
            |i: int| is_cell(i) && board.owner(i) is None && i != first@,
        ),
        PartialTurn::Move(_, target) if board.level(target@) == Construction::ThirdLevel => {
            Set::empty()
        },
        _ => Set::new(
            |i: int|
                exists|t: Turn|
                    #[trigger] board.generates(t) && (picked(turn, t) matches Some(p) && p@ == i),
        ),
    }
}

/// What the player to act is asked to do while `turn` is being built.
pub open spec fn action_text(turn: PartialTurn) -> Seq<char> {
    match turn {
        PartialTurn::Nothing => "Pick a worker!"@,
        PartialTurn::Selection(_) => "Move your worker!"@,
        PartialTurn::Move(_, _) => "Build!"@,
        PartialTurn::NothingSetup => "Place your first worker!"@,
        PartialTurn::PartialSetup(_) => "Place your second worker!"@,
    }
}

/// The first state of a turn for the player to act on `board`: placing
/// workers while that player has none, picking a worker after.
pub open spec fn initial_turn(board: BoardModel) -> PartialTurn {
    if board.workers(board.next).is_empty() {
        PartialTurn::NothingSetup
    } else {
        PartialTurn::Nothing
    }
}

/// A board on which workers are still being placed: the player to act has
/// none yet, and nothing has been capped.
pub open spec fn placing(board: BoardModel) -> bool {
    board.workers(board.next).is_empty() && board.dome.is_empty()
}

/// A board on which both players have workers.
pub open spec fn playing(board: BoardModel) -> bool {
    !board.player1.is_empty() && !board.player2.is_empty()
}

/// A board and a move being picked on it one cell at a time.
#[derive(Debug)]
pub struct Game {
    board: Board,
    current_turn: PartialTurn,
    selectable: PositionSet,
}

impl Game {
    pub closed spec fn board_view(self) -> BoardModel {
        self.board@
    }

    pub closed spec fn turn_view(self) -> PartialTurn {
        self.current_turn
    }

    pub closed spec fn selectable_view(self) -> Set<int> {
        self.selectable@
    }

    /// The board is well formed, the cached cells are those of the current
    /// state, and the state fits the phase of the game.
    pub open spec fn wf(self) -> bool {
        &&& self.board_view().wf()
        &&& self.selectable_view() == selectable_cells(self.board_view(), self.turn_view())
        &&& match self.turn_view() {
            PartialTurn::NothingSetup => placing(self.board_view()),
            PartialTurn::PartialSetup(first) => {
                &&& placing(self.board_view())
                &&& is_cell(first@)
                &&& self.board_view().owner(first@) is None
            },
            _ => playing(self.board_view()),
        }
    }

    /// `next` is this game once `selection` is taken: the turn goes one
    /// cell further, or is complete and applied to the board.
    pub open spec fn selection_step(self, next: Self, selection: Position) -> bool {
        match self.turn_view() {
            PartialTurn::Nothing => next.board_view() == self.board_view()
                && next.turn_view() == PartialTurn::Selection(selection),
            PartialTurn::Selection(start) => next.board_view() == self.board_view()
                && next.turn_view() == PartialTurn::Move(start, selection),
            PartialTurn::Move(start, end) => {
                &&& next.board_view() == self.board_view().after(
                    Turn::MoveBuild { start, end, build: selection },
                )
                &&& next.turn_view() == PartialTurn::Nothing
            },
            PartialTurn::NothingSetup => next.board_view() == self.board_view()
                && next.turn_view() == PartialTurn::PartialSetup(selection),
            PartialTurn::PartialSetup(first) => {
                &&& next.board_view() == self.board_view().placed(first@, selection@)
                &&& next.turn_view() == initial_turn(next.board_view())
            },
        }
    }

    pub fn new() -> (r: Self)
        ensures
            r.wf(),
            r.board_view() == BoardModel::initial(),
            r.turn_view() == PartialTurn::NothingSetup,
            r.selectable_view() == all_cells(),
    {
        let board = Board::new();
        let tiles = board.get_tiles();
        let mut selectable = PositionSet::new();
        let mut k: usize = 0;
        while k < tiles.len()
            invariant
                k <= tiles@.len(),
                forall|c: int|
                    is_cell(c) <==> exists|j: int| 0 <= j < tiles@.len() && tiles@[j].0@ == c,
                forall|j: int| 0 <= j < tiles@.len() ==> (#[trigger] tiles@[j]).0.inv(),
                forall|c: int|
                    selectable@.contains(c) <==> exists|j: int| 0 <= j < k && tiles@[j].0@ == c,
            decreases tiles@.len() - k,
        {
            let ghost prev = selectable@;
            selectable.add(tiles[k].0);
            proof {
                assert forall|c: int|
                    selectable@.contains(c) <==> exists|j: int|
                        0 <= j < k + 1 && tiles@[j].0@ == c by {
                    if prev.contains(c) {
                        let j = choose|j: int| 0 <= j < k && tiles@[j].0@ == c;
                    }
                }
            }
            k = k + 1;
        }
        let r = Self { board, current_turn: PartialTurn::NothingSetup, selectable };
        proof {
            assert(selectable@ =~= all_cells());
            assert(r.selectable_view() =~= selectable_cells(r.board_view(), r.turn_view()));
        }
        r
    }

    pub fn selectable(&self) -> (r: &PositionSet)
        ensures
            r@ == self.selectable_view(),
    {
        &self.selectable
    }

    /// Drops what was picked of the current turn.
    pub fn cancel(&mut self)
        requires
            old(self).wf(),
        ensures
            final(self).wf(),
            final(self).board_view() == old(self).board_view(),
            final(self).turn_view() == match old(self).turn_view() {
                PartialTurn::NothingSetup | PartialTurn::PartialSetup(_) => PartialTurn::NothingSetup,
                _ => PartialTurn::Nothing,
            },
    {
        self.current_turn = match self.current_turn {
            PartialTurn::NothingSetup | PartialTurn::PartialSetup(_) => PartialTurn::NothingSetup,
            _ => PartialTurn::Nothing,
        };
        self.reset_selectable();
    }

    /// Takes one picked cell, which must be one of the selectable ones: it
    /// extends the current turn, or completes it and applies it to the board.
    pub fn register_selection(&mut self, selection: Position)
        requires
            old(self).wf(),
            old(self).selectable_view().contains(selection@),
        ensures
            final(self).wf(),
            old(self).selection_step(*final(self), selection),
    {
        proof {
            use_type_invariant(&selection);
        }
        let ghost old_board = self.board@;
        match self.current_turn {
            PartialTurn::Nothing => {
                self.current_turn = PartialTurn::Selection(selection);
            },
            PartialTurn::Selection(start) => {
                self.current_turn = PartialTurn::Move(start, selection);
            },
            PartialTurn::Move(start, end) => {
                let turn = Turn::MoveBuild { start, end, build: selection };
                proof {
                    let t = choose|t: Turn|
                        #[trigger] old_board.generates(t) && (picked(self.current_turn, t) matches Some(
                            p,
                        ) && p@ == selection@);
                    if let Turn::MoveBuild { build, .. } = t {
                        build.lemma_view_injective(selection);
                    }
                    assert(t == turn);
                    lemma_generated_turns_are_accepted(old_board, turn);
                    lemma_after_keeps_wf(old_board, turn);
                }
                self.board = self.board.action(&turn).unwrap();
                self.current_turn = PartialTurn::Nothing;
            },
            PartialTurn::NothingSetup => {
                self.current_turn = PartialTurn::PartialSetup(selection);
            },
            PartialTurn::PartialSetup(first) => {
                proof {
                    lemma_after_keeps_wf(old_board, Turn::Setup(first, selection));
                }
                self.board = self.board.place_worker(first, selection).unwrap();
                self.current_turn = if self.board.get_player_meeple(
                    self.board.current_player(),
                ).is_empty() {
                    PartialTurn::NothingSetup
                } else {
                    PartialTurn::Nothing
                };
                proof {
                    assert(set![first@, selection@].contains(first@));
                }
            },
        }
        self.reset_selectable();
    }

    /// The cells picked so far in the current turn, in the order picked.
    pub fn selected(&self) -> (r: Vec<Position>)
        ensures
            r@ == match self.turn_view() {
                PartialTurn::Nothing => Seq::<Position>::empty(),
                PartialTurn::Selection(start) => seq![start],
                PartialTurn::Move(start, end) => seq![start, end],
                PartialTurn::NothingSetup => Seq::<Position>::empty(),
                PartialTurn::PartialSetup(first) => seq![first],
            },
    {
        match self.current_turn {
            PartialTurn::Nothing => vec![],
            PartialTurn::Selection(start) => vec![start],
            PartialTurn::Move(start, end) => vec![start, end],
            PartialTurn::NothingSetup => vec![],
            PartialTurn::PartialSetup(first) => vec![first],
        }
    }

    /// The player who has won: the one to act, once a picked move reaches
    /// the third level; the other one, when the player to act has no worker
    /// that can move.
    pub fn winner(&self) -> (r: Option<Player>)
        ensures
            r == match self.turn_view() {
                PartialTurn::Move(_, end) => if self.board_view().level(end@)
                    == Construction::ThirdLevel {
                    Some(self.board_view().next)
                } else {
                    None
                },
                PartialTurn::Nothing => if self.selectable_view().is_empty() {
                    Some(self.board_view().next.other())
                } else {
                    None
                },
                _ => None,
            },
    {
        match self.current_turn {
            PartialTurn::Move(_, end) => {
                if self.board.get_tile(end).construction == Construction::ThirdLevel {
                    Some(self.board.current_player())
                } else {
                    None
                }
            },
            PartialTurn::Nothing => {
                if self.selectable.is_empty() {
                    Some(self.board.current_player().other_player())
                } else {
                    None
                }
            },
            _ => None,
        }
    }

    /// Tells the player to act what to do next.
    pub fn next_action(&self) -> (r: String)
        ensures
            r@ == self.board_view().next.label() + ": "@ + action_text(self.turn_view()),
    {
        let action = match self.current_turn {
            PartialTurn::Nothing => "Pick a worker!",
            PartialTurn::Selection(_) => "Move your worker!",
            PartialTurn::Move(_, _) => "Build!",
            PartialTurn::NothingSetup => "Place your first worker!",
            PartialTurn::PartialSetup(_) => "Place your second worker!",
        };
        self.board.current_player().name().concat(": ").concat(action)
    }

    pub fn board(&self) -> (r: &Board)
        ensures
            r@ == self.board_view(),
    {
        &self.board
    }

    /// Applies a whole turn, one of those that move generation lists, and
    /// starts the next player's turn afresh.
    pub fn play(&mut self, turn: Turn)
        requires
            old(self).wf(),
            old(self).board_view().generates(turn),
        ensures
            final(self).wf(),
            final(self).board_view() == old(self).board_view().after(turn),
            final(self).turn_view() == initial_turn(final(self).board_view()),
    {
        let ghost old_board = self.board@;
        proof {
            lemma_generated_turns_are_accepted(old_board, turn);
            lemma_after_keeps_wf(old_board, turn);
            if let Turn::Setup(p1, p2) = turn {
                assert(set![p1@, p2@].contains(p1@));
            }
        }
        self.board = self.board.action(&turn).unwrap();
        self.current_turn = if self.board.get_player_meeple(self.board.current_player()).is_empty() {
            PartialTurn::NothingSetup
        } else {
            PartialTurn::Nothing
        };
        self.reset_selectable();
    }

    /// The cell of `t` that matters in the current state, if any.
    fn pick(&self, t: &Turn) -> (r: Option<Position>)
        ensures
            r == picked(self.current_turn, *t),
    {
        match self.current_turn {
            PartialTurn::Nothing => match t {
                Turn::MoveBuild { start, .. } => Some(*start),
                Turn::FinalMove { start, .. } => Some(*start),
                Turn::Setup(_, _) => None,
            },
            PartialTurn::Selection(selected) => match t {
                Turn::MoveBuild { start, end, .. } if *start == selected => Some(*end),
                Turn::FinalMove { start, end } if *start == selected => Some(*end),
                _ => None,
            },
            PartialTurn::Move(selected, target) => match t {
                Turn::MoveBuild { start, end, build } if *start == selected && *end == target => {
                    Some(*build)
                },
                _ => None,
            },
            _ => None,
        }
    }

    /// Recomputes the cells that may be picked in the current state.
    fn reset_selectable(&mut self)
        ensures
            final(self).board == old(self).board,
            final(self).current_turn == old(self).current_turn,
            final(self).selectable@ == selectable_cells(old(self).board@, old(self).current_turn),
    {
        let ghost board = self.board@;
        let ghost turn = self.current_turn;
        match self.current_turn {
            PartialTurn::NothingSetup => {
                self.selectable = PositionSet::all().difference(self.board.get_meeple());
                proof {
                    assert(self.selectable@ =~= selectable_cells(board, turn));
                }
                return ;
            },
            PartialTurn::PartialSetup(first) => {
                let mut free = PositionSet::all().difference(self.board.get_meeple());
                free.remove(first);
                self.selectable = free;
                proof {
                    assert(self.selectable@ =~= selectable_cells(board, turn));
                }
                return ;
            },
            PartialTurn::Move(_, target) => {
                if self.board.get_tile(target).construction == Construction::ThirdLevel {
                    self.selectable = PositionSet::new();
                    proof {
                        assert(self.selectable@ =~= selectable_cells(board, turn));
                    }
                    return ;
                }
            },
            _ => {},
        }
        let possible_moves = self.board.possible_move();
        let mut cells = PositionSet::new();
        let mut k: usize = 0;
        while k < possible_moves.len()
            invariant
                k <= possible_moves@.len(),
                self.current_turn == turn,
                forall|t: Turn| #[trigger] possible_moves@.contains(t) <==> board.generates(t),
                forall|c: int|
                    cells@.contains(c) <==> exists|j: int|
                        0 <= j < k && (picked(turn, #[trigger] possible_moves@[j]) matches Some(
                            p,
                        ) && p@ == c),
            decreases possible_moves@.len() - k,
        {
            let ghost prev = cells@;
            match self.pick(&possible_moves[k]) {
                Some(p) => {
                    cells.add(p);
                },
                None => {},
            }
            proof {
                assert forall|c: int|
                    cells@.contains(c) <==> exists|j: int|
                        0 <= j < k + 1 && (picked(turn, #[trigger] possible_moves@[j]) matches Some(
                            p,
                        ) && p@ == c) by {
                    if prev.contains(c) {
                        let j = choose|j: int|
                            0 <= j < k && (picked(turn, #[trigger] possible_moves@[j]) matches Some(
                                p,
                            ) && p@ == c);
                    }
                }
            }
            k = k + 1;
        }
        self.selectable = cells;
        proof {
            assert forall|c: int| #[trigger]
                cells@.contains(c) <==> selectable_cells(board, turn).contains(c) by {
                if cells@.contains(c) {
                    let j = choose|j: int|
                        0 <= j < k && (picked(turn, #[trigger] possible_moves@[j]) matches Some(p)
                            && p@ == c);
                    assert(possible_moves@.contains(possible_moves@[j]));
                }
                if selectable_cells(board, turn).contains(c) {
                    let t = choose|t: Turn|
                        #[trigger] board.generates(t) && (picked(turn, t) matches Some(p) && p@
                            == c);
                    assert(possible_moves@.contains(t));
                    let j = choose|j: int| 0 <= j < possible_moves@.len() && possible_moves@[j] == t;
                }
            }
            assert(cells@ =~= selectable_cells(board, turn));
        }
    }
}

} // verus!
