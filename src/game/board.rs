use vstd::prelude::*;

use super::error::{GameError, Result};
use super::prelude::{
    adjacent, all_cells, indices_of, is_cell, Construction, Player, Position, PositionSet, Tile,
};
use super::turn::Turn;

verus! {

/// What a board holds, as sets of cell indices.
pub struct BoardModel {
    pub player1: Set<int>,
    pub player2: Set<int>,
    pub first: Set<int>,
    pub second: Set<int>,
    pub third: Set<int>,
    pub dome: Set<int>,
    pub next: Player,
}

impl BoardModel {
    /// An empty board with the first player to act.
    pub open spec fn initial() -> BoardModel {
        BoardModel {
            player1: Set::empty(),
            player2: Set::empty(),
            first: Set::empty(),
            second: Set::empty(),
            third: Set::empty(),
            dome: Set::empty(),
            next: Player::Player1,
        }
    }

    pub open spec fn workers(self, player: Player) -> Set<int> {
        match player {
            Player::Player1 => self.player1,
            Player::Player2 => self.player2,
        }
    }

    pub open spec fn with_workers(self, player: Player, cells: Set<int>) -> BoardModel {
        match player {
            Player::Player1 => BoardModel { player1: cells, ..self },
            Player::Player2 => BoardModel { player2: cells, ..self },
        }
    }

    /// The cells on which any worker stands.
    pub open spec fn occupied(self) -> Set<int> {
        self.player1.union(self.player2)
    }

    /// The construction on a cell: the most advanced level set holding it,
    /// ground if none does.
    pub open spec fn level(self, i: int) -> Construction {
        if self.dome.contains(i) {
            Construction::Dome
        } else if self.third.contains(i) {
            Construction::ThirdLevel
        } else if self.second.contains(i) {
            Construction::SecondLevel
        } else if self.first.contains(i) {
            Construction::FirstLevel
        } else {
            Construction::GroundLevel
        }
    }

    pub open spec fn owner(self, i: int) -> Option<Player> {
        if self.player1.contains(i) {
            Some(Player::Player1)
        } else if self.player2.contains(i) {
            Some(Player::Player2)
        } else {
            None
        }
    }

    /// No cell holds two workers or two levels, and no worker stands on a
    /// dome.
    pub open spec fn wf(self) -> bool {
        &&& self.consistent()
        &&& self.occupied().disjoint(self.dome)
    }

    /// No cell holds workers of both players, and no cell lies in two level
    /// sets. Every board keeps to this.
    pub open spec fn consistent(self) -> bool {
        &&& self.player1.disjoint(self.player2)
        &&& self.first.disjoint(self.second)
        &&& self.first.disjoint(self.third)
        &&& self.first.disjoint(self.dome)
        &&& self.second.disjoint(self.third)
        &&& self.second.disjoint(self.dome)
        &&& self.third.disjoint(self.dome)
    }

    /// The player to act may place workers on `a` and `b`.
    pub open spec fn can_place(self, a: int, b: int) -> bool {
        &&& self.workers(self.next).is_empty()
        &&& !self.workers(self.next.other()).contains(a)
        &&& !self.workers(self.next.other()).contains(b)
    }

    pub open spec fn placed(self, a: int, b: int) -> BoardModel {
        BoardModel {
            next: self.next.other(),
            ..self.with_workers(self.next, set![a, b])
        }
    }

    /// One level more on cell `i`.
    pub open spec fn built(self, i: int) -> BoardModel {
        if self.third.contains(i) {
            BoardModel { third: self.third.remove(i), dome: self.dome.insert(i), ..self }
        } else if self.second.contains(i) {
            BoardModel { second: self.second.remove(i), third: self.third.insert(i), ..self }
        } else if self.first.contains(i) {
            BoardModel { first: self.first.remove(i), second: self.second.insert(i), ..self }
        } else {
            BoardModel { first: self.first.insert(i), ..self }
        }
    }

    /// The worker of the player to act on `start` goes to `end`.
    pub open spec fn moved(self, start: int, end: int) -> BoardModel {
        self.with_workers(self.next, self.workers(self.next).remove(start).insert(end))
    }

    /// A move from `start` to `end` that `action` lets through.
    pub open spec fn move_allowed(self, start: int, end: int) -> bool {
        &&& adjacent(start, end)
        &&& self.workers(self.next).contains(start)
        &&& !self.occupied().contains(end)
        &&& !self.dome.contains(end)
    }

    /// `action` applies the turn.
    pub open spec fn accepts(self, turn: Turn) -> bool {
        match turn {
            Turn::Setup(p1, p2) => self.can_place(p1@, p2@),
            Turn::MoveBuild { start, end, build } => {
                &&& self.move_allowed(start@, end@)
                &&& adjacent(end@, build@)
                &&& !self.moved(start@, end@).occupied().contains(build@)
                &&& !self.dome.contains(build@)
            },
            Turn::FinalMove { start, end } => {
                &&& self.move_allowed(start@, end@)
                &&& self.third.contains(end@)
            },
        }
    }

    /// A step from `start` to `end` that move generation offers.
    pub open spec fn step_offered(self, start: int, end: int) -> bool {
        &&& self.workers(self.next).contains(start)
        &&& is_cell(end)
        &&& adjacent(start, end)
        &&& !self.occupied().contains(end)
        &&& self.level(start).allows_step(self.level(end))
    }

    /// A cell that move generation offers to build on once the worker on
    /// `start` went to `end`: the cell just left, or a free cell without a
    /// dome, next to `end`.
    pub open spec fn build_offered(self, start: int, end: int, build: int) -> bool {
        &&& is_cell(build)
        &&& adjacent(end, build)
        &&& (build == start || (!self.dome.contains(build) && !self.occupied().contains(build)))
    }

    /// The turn is one of those that `possible_move` lists.
    pub open spec fn generates(self, turn: Turn) -> bool {
        &&& turn.valid()
        &&& if self.workers(self.next).is_empty() {
            turn matches Turn::Setup(p1, p2) && !self.workers(self.next.other()).contains(p1@)
                && !self.workers(self.next.other()).contains(p2@)
        } else {
            match turn {
                Turn::Setup(_, _) => false,
                Turn::MoveBuild { start, end, build } => {
                    &&& self.step_offered(start@, end@)
                    &&& !self.third.contains(end@)
                    &&& self.build_offered(start@, end@, build@)
                },
                Turn::FinalMove { start, end } => {
                    &&& self.step_offered(start@, end@)
                    &&& self.third.contains(end@)
                },
            }
        }
    }

    /// The board after an accepted turn.
    pub open spec fn after(self, turn: Turn) -> BoardModel {
        match turn {
            Turn::Setup(p1, p2) => self.placed(p1@, p2@),
            Turn::MoveBuild { start, end, build } => BoardModel {
                next: self.next.other(),
                ..self.moved(start@, end@).built(build@)
            },
            Turn::FinalMove { start, end } => BoardModel {
                next: self.next.other(),
                ..self.moved(start@, end@)
            },
        }
    }
}

proof fn lemma_push_contains(s: Seq<Turn>, x: Turn)
    ensures
        forall|u: Turn| #[trigger] s.push(x).contains(u) <==> s.contains(u) || u == x,
{
    assert forall|u: Turn| #[trigger] s.push(x).contains(u) <==> s.contains(u) || u == x by {
        if s.push(x).contains(u) && u != x {
            let k = choose|k: int| 0 <= k < s.push(x).len() && s.push(x)[k] == u;
            assert(s[k] == u);
        }
        if s.contains(u) {
            let k = choose|k: int| 0 <= k < s.len() && s[k] == u;
            assert(s.push(x)[k] == u);
        }
        if u == x {
            assert(s.push(x)[s.len() as int] == u);
        }
    }
}

proof fn lemma_push_no_duplicates(s: Seq<Turn>, x: Turn)
    requires
        s.no_duplicates(),
        !s.contains(x),
    ensures
        s.push(x).no_duplicates(),
{
    assert forall|i: int, j: int| 0 <= i < j < s.push(x).len() implies s.push(x)[i] != s.push(
        x,
    )[j] by {
        if j == s.len() {
            assert(s.contains(s[i]));
        }
    }
}

proof fn lemma_disjoint_iff(a: Set<int>, b: Set<int>)
    ensures
        a.intersect(b).is_empty() <==> a.disjoint(b),
{
    if a.disjoint(b) {
        assert(a.intersect(b) =~= Set::<int>::empty());
    }
    if a.intersect(b).is_empty() {
        assert forall|x: int| !(a.contains(x) && b.contains(x)) by {
            assert(!a.intersect(b).contains(x));
        }
    }
}

/// `turn` moves the worker on `start` to `end` and builds on one of `cells`.
pub open spec fn builds_among(turn: Turn, start: Position, end: Position, cells: Set<int>) -> bool {
    match turn {
        Turn::MoveBuild { start: s, end: e, build: b } => s == start && e == end && b.inv()
            && cells.contains(b@),
        _ => false,
    }
}

/// `turn` moves the worker on `start` to a cell of `ends`, as move
/// generation on `board` offers.
pub open spec fn moves_among(board: BoardModel, turn: Turn, start: Position, ends: Set<int>) -> bool {
    match turn {
        Turn::MoveBuild { start: s, end: e, build: b } => {
            &&& s == start
            &&& e.inv()
            &&& b.inv()
            &&& ends.contains(e@)
            &&& board.step_offered(start@, e@)
            &&& !board.third.contains(e@)
            &&& board.build_offered(start@, e@, b@)
        },
        Turn::FinalMove { start: s, end: e } => {
            &&& s == start
            &&& e.inv()
            &&& ends.contains(e@)
            &&& board.step_offered(start@, e@)
            &&& board.third.contains(e@)
        },
        Turn::Setup(_, _) => false,
    }
}

/// The cell that a turn's worker leaves; a setup leaves none.
pub open spec fn start_of(turn: Turn) -> Option<Position> {
    match turn {
        Turn::MoveBuild { start, .. } => Some(start),
        Turn::FinalMove { start, .. } => Some(start),
        Turn::Setup(_, _) => None,
    }
}

/// On a well-formed board, `action` accepts every turn that move generation
/// lists.
pub proof fn lemma_generated_turns_are_accepted(board: BoardModel, turn: Turn)
    requires
        board.wf(),
        board.generates(turn),
    ensures
        board.accepts(turn),
{
    match turn {
        Turn::MoveBuild { start, end, build } => {
            assert(board.occupied().contains(start@));
            if build@ == start@ {
                assert(!board.dome.contains(start@));
            }
        },
        _ => {},
    }
}

/// `action` refuses a move between cells that do not touch, onto a cell
/// with a worker or a dome, a move without a build that does not reach the
/// third level, and a build on a dome.
pub proof fn lemma_action_rejects(board: BoardModel, turn: Turn)
    ensures
        match turn {
            Turn::Setup(_, _) => true,
            Turn::MoveBuild { start, end, build } => (!adjacent(start@, end@)
                || board.occupied().contains(end@) || board.dome.contains(end@)
                || board.dome.contains(build@)) ==> !board.accepts(turn),
            Turn::FinalMove { start, end } => (!adjacent(start@, end@) || board.occupied().contains(
                end@,
            ) || board.dome.contains(end@) || !board.third.contains(end@)) ==> !board.accepts(turn),
        },
{
}

/// After a generated move the cell that the worker left holds no worker, so
/// no turn generated on the resulting board moves a worker away from it.
/// Within the move itself that cell may be built on but is never the
/// destination.
pub proof fn lemma_vacated_cell_is_free(board: BoardModel, turn: Turn, vacated: Position, next: Turn)
    requires
        board.wf(),
        board.generates(turn),
        start_of(turn) == Some(vacated),
    ensures
        !board.after(turn).occupied().contains(vacated@),
        board.after(turn).generates(next) ==> !(start_of(next) matches Some(s) && s@ == vacated@),
        turn matches Turn::MoveBuild { start, end, .. } ==> end@ != start@
            && board.build_offered(start@, end@, start@),
        turn matches Turn::FinalMove { start, end } ==> end@ != start@,
{
    let after = board.after(turn);
    assert(after.player1 == board.moved(vacated@, end_of(turn)@).player1);
    assert(after.player2 == board.moved(vacated@, end_of(turn)@).player2);
    if after.generates(next) {
        if let Some(s) = start_of(next) {
            assert(after.occupied().contains(s@));
        }
    }
}

/// On a well-formed board an accepted turn leaves the board well formed,
/// provided a setup places its workers off domes. A move keeps a worker of
/// each player that had one.
pub proof fn lemma_after_keeps_wf(board: BoardModel, turn: Turn)
    requires
        board.wf(),
        board.accepts(turn),
        turn matches Turn::Setup(p1, p2) ==> !board.dome.contains(p1@) && !board.dome.contains(
            p2@,
        ),
    ensures
        board.after(turn).wf(),
        start_of(turn) is Some ==> board.after(turn).player1.is_empty() == board.player1.is_empty()
            && board.after(turn).player2.is_empty() == board.player2.is_empty(),
{
    let after = board.after(turn);
    match turn {
        Turn::Setup(p1, p2) => {
            assert(after.occupied().disjoint(after.dome));
        },
        Turn::MoveBuild { start, end, build } => {
            let moved = board.moved(start@, end@);
            assert(moved.occupied().disjoint(moved.dome));
            assert(moved.player1.disjoint(moved.player2));
            assert(moved.workers(board.next).contains(end@));
            assert(after.occupied().disjoint(after.dome));
        },
        Turn::FinalMove { start, end } => {
            let moved = board.moved(start@, end@);
            assert(moved.workers(board.next).contains(end@));
            assert(after.occupied().disjoint(after.dome));
        },
    }
}

/// The cell that a move's worker goes to; a setup places the first worker
/// there.
pub open spec fn end_of(turn: Turn) -> Position {
    match turn {
        Turn::MoveBuild { end, .. } => end,
        Turn::FinalMove { end, .. } => end,
        Turn::Setup(p1, _) => p1,
    }
}

/// The state of a game: where the workers stand, what is built, and whose
/// turn it is.
#[derive(Clone, Copy, Debug)]
pub struct Board {
    player1_meeple: PositionSet,
    player2_meeple: PositionSet,
    first_floor: PositionSet,
    second_floor: PositionSet,
    third_floor: PositionSet,
    dome: PositionSet,
    next_player: Player,
}

impl View for Board {
    type V = BoardModel;

    closed spec fn view(&self) -> BoardModel {
        BoardModel {
            player1: self.player1_meeple@,
            player2: self.player2_meeple@,
            first: self.first_floor@,
            second: self.second_floor@,
            third: self.third_floor@,
            dome: self.dome@,
            next: self.next_player,
        }
    }
}

impl Board {
    #[verifier::type_invariant]
    spec fn inv(self) -> bool {
        self@.consistent()
    }

    /// A board with the given workers, levels and player to act; `None`
    /// when a cell would hold workers of both players or two levels.
    pub fn from_sets(
        player1: PositionSet,
        player2: PositionSet,
        first: PositionSet,
        second: PositionSet,
        third: PositionSet,
        dome: PositionSet,
        next: Player,
    ) -> (r: Option<Self>)
        ensures
            ({
                let model = BoardModel {
                    player1: player1@,
                    player2: player2@,
                    first: first@,
                    second: second@,
                    third: third@,
                    dome: dome@,
                    next,
                };
                &&& r is Some <==> model.consistent()
                &&& r matches Some(b) ==> b@ == model
            }),
    {
        proof {
            lemma_disjoint_iff(player1@, player2@);
            lemma_disjoint_iff(first@, second@);
            lemma_disjoint_iff(first@, third@);
            lemma_disjoint_iff(first@, dome@);
            lemma_disjoint_iff(second@, third@);
            lemma_disjoint_iff(second@, dome@);
            lemma_disjoint_iff(third@, dome@);
        }
        if player1.intersection(player2).is_empty() && first.intersection(second).is_empty()
            && first.intersection(third).is_empty() && first.intersection(dome).is_empty()
            && second.intersection(third).is_empty() && second.intersection(dome).is_empty()
            && third.intersection(dome).is_empty() {
            Some(
                Self {
                    player1_meeple: player1,
                    player2_meeple: player2,
                    first_floor: first,
                    second_floor: second,
                    third_floor: third,
                    dome,
                    next_player: next,
                },
            )
        } else {
            None
        }
    }

    /// The first, second and third level sets.
    pub(crate) fn floors(&self) -> (r: (PositionSet, PositionSet, PositionSet))
        ensures
            r.0@ == self@.first,
            r.1@ == self@.second,
            r.2@ == self@.third,
    {
        (self.first_floor, self.second_floor, self.third_floor)
    }

    /// An empty board, with the first player to place workers.
    pub fn new() -> (r: Self)
        ensures
            r@ == BoardModel::initial(),
    {
        Self {
            player1_meeple: PositionSet::new(),
            player2_meeple: PositionSet::new(),
            first_floor: PositionSet::new(),
            second_floor: PositionSet::new(),
            third_floor: PositionSet::new(),
            dome: PositionSet::new(),
            next_player: Player::Player1,
        }
    }

    fn get_construction(&self, position: Position) -> (r: Construction)
        ensures
            r == self@.level(position@),
    {
        if self.dome.contains(position) {
            Construction::Dome
        } else if self.third_floor.contains(position) {
            Construction::ThirdLevel
        } else if self.second_floor.contains(position) {
            Construction::SecondLevel
        } else if self.first_floor.contains(position) {
            Construction::FirstLevel
        } else {
            Construction::GroundLevel
        }
    }

    pub fn get_tile(&self, position: Position) -> (r: Tile)
        ensures
            r.construction == self@.level(position@),
            r.player == self@.owner(position@),
    {
        let player = if self.player1_meeple.contains(position) {
            Some(Player::Player1)
        } else if self.player2_meeple.contains(position) {
            Some(Player::Player2)
        } else {
            None
        };
        Tile { construction: self.get_construction(position), player }
    }

    /// Replaces the workers of `player`, who keep off the other player's
    /// cells.
    fn set_player_meeple(&mut self, player: Player, meeple: PositionSet)
        requires
            meeple@.disjoint(old(self)@.workers(player.other())),
        ensures
            final(self)@ == old(self)@.with_workers(player, meeple@),
    {
        proof {
            use_type_invariant(&*self);
        }
        match player {
            Player::Player1 => self.player1_meeple = meeple,
            Player::Player2 => self.player2_meeple = meeple,
        }
        proof {
            assert(self@ =~= old(self)@.with_workers(player, meeple@));
        }
    }

    pub(crate) fn get_player_meeple(&self, player: Player) -> (r: PositionSet)
        ensures
            r@ == self@.workers(player),
    {
        match player {
            Player::Player1 => self.player1_meeple,
            Player::Player2 => self.player2_meeple,
        }
    }

    pub(crate) fn get_meeple(&self) -> (r: PositionSet)
        ensures
            r@ == self@.occupied(),
    {
        self.player1_meeple.union(self.player2_meeple)
    }

    /// Places the two workers of the player to act, who must have none yet,
    /// on cells that the other player's workers leave free.
    pub fn place_worker(&self, p1: Position, p2: Position) -> (r: Result<Self>)
        ensures
            r is Ok <==> self@.can_place(p1@, p2@),
            r matches Ok(b) ==> b@ == self@.placed(p1@, p2@),
            r matches Err(e) ==> e == GameError::InvalidMove,
    {
        let mut new_board = *self;
        let other_player_meeple = new_board.get_player_meeple(self.next_player.other_player());
        if other_player_meeple.contains(p1) || other_player_meeple.contains(p2) {
            return Err(GameError::InvalidMove);
        }
        if !new_board.get_player_meeple(self.next_player).is_empty() {
            return Err(GameError::InvalidMove);
        }
        let cells = [p1, p2];
        let placed = PositionSet::from(cells);
        proof {
            use_type_invariant(&p1);
            use_type_invariant(&p2);
            PositionSet::lemma_from_cells(cells@);
            assert(indices_of(cells@) =~= set![p1@, p2@]) by {
                assert(cells@[0] == p1);
                assert(cells@[1] == p2);
            }
            assert(placed@ =~= set![p1@, p2@]);
        }
        proof {
            use_type_invariant(self);
        }
        new_board.set_player_meeple(self.next_player, placed);
        proof {
            assert(new_board@.consistent());
        }
        new_board.next_player = self.next_player.other_player();
        proof {
            assert(new_board@ =~= self@.placed(p1@, p2@));
        }
        Ok(new_board)
    }

    /// Applies a turn of the player to act, then hands the turn over.
    pub fn action(&self, turn: &Turn) -> (r: Result<Self>)
        ensures
            r is Ok <==> self@.accepts(*turn),
            r matches Ok(b) ==> b@ == self@.after(*turn),
            r matches Err(e) ==> e == GameError::InvalidMove,
    {
        let (start, end, build) = match turn {
            Turn::Setup(p1, p2) => {
                if self.get_player_meeple(self.next_player).is_empty() {
                    return self.place_worker(*p1, *p2);
                } else {
                    return Err(GameError::InvalidMove);
                }
            },
            Turn::MoveBuild { start, end, build } => (*start, *end, Some(*build)),
            Turn::FinalMove { start, end } => (*start, *end, None),
        };
        if !Position::are_neighbors(start, end) {
            return Err(GameError::InvalidMove);
        }
        if !self.get_player_meeple(self.next_player).contains(start) {
            return Err(GameError::InvalidMove);
        }
        if self.get_meeple().contains(end) || self.dome.contains(end) {
            return Err(GameError::InvalidMove);
        }
        if !self.third_floor.contains(end) && build.is_none() {
            return Err(GameError::InvalidMove);
        }
        let mut new_board = *self;
        let mut player_meeple = self.get_player_meeple(self.next_player);
        player_meeple.remove(start);
        player_meeple.add(end);
        proof {
            use_type_invariant(self);
        }
        new_board.set_player_meeple(self.next_player, player_meeple);
        proof {
            assert(new_board@ =~= self@.moved(start@, end@));
        }
        if let Some(construction_position) = build {
            if !Position::are_neighbors(end, construction_position) {
                return Err(GameError::InvalidMove);
            }
            if new_board.get_meeple().contains(construction_position) {
                return Err(GameError::InvalidMove);
            }
            match new_board.build(construction_position) {
                Ok(()) => {},
                Err(e) => {
                    return Err(e);
                },
            }
        }
        new_board.next_player = self.next_player.other_player();
        proof {
            assert(new_board@ =~= self@.after(*turn));
        }
        Ok(new_board)
    }

    /// Every cell with what it holds, from the highest bit index down.
    pub fn get_tiles(&self) -> (r: Vec<(Position, Tile)>)
        ensures
            forall|k: int|
                0 <= k < r@.len() ==> {
                    &&& (#[trigger] r@[k]).0.inv()
                    &&& r@[k].1.construction == self@.level(r@[k].0@)
                    &&& r@[k].1.player == self@.owner(r@[k].0@)
                },
            forall|i: int, j: int| 0 <= i < j < r@.len() ==> r@[i].0@ > r@[j].0@,
            forall|c: int| is_cell(c) <==> exists|k: int| 0 <= k < r@.len() && r@[k].0@ == c,
    {
        let mut acc: Vec<(Position, Tile)> = Vec::new();
        let all = PositionSet::all();
        let mut it = all.into_iter();
        loop
            invariant
                it@.subset_of(all_cells()),
                all@ == all_cells(),
                forall|k: int|
                    0 <= k < acc@.len() ==> {
                        &&& (#[trigger] acc@[k]).0.inv()
                        &&& acc@[k].1.construction == self@.level(acc@[k].0@)
                        &&& acc@[k].1.player == self@.owner(acc@[k].0@)
                        &&& forall|j: int| #[trigger] it@.contains(j) ==> j < acc@[k].0@
                    },
                forall|i: int, j: int| 0 <= i < j < acc@.len() ==> acc@[i].0@ > acc@[j].0@,
                forall|c: int|
                    is_cell(c) && !it@.contains(c) <==> exists|k: int|
                        0 <= k < acc@.len() && acc@[k].0@ == c,
            ensures
                it@.is_empty(),
            decreases it@.len(),
        {
            proof {
                it.lemma_finite();
            }
            match it.next() {
                None => {
                    break ;
                },
                Some(position) => {
                    proof {
                        use_type_invariant(&position);
                    }
                    let ghost prev = acc@;
                    acc.push((position, self.get_tile(position)));
                    proof {
                        assert forall|c: int|
                            is_cell(c) && !it@.contains(c) <==> exists|k: int|
                                0 <= k < acc@.len() && acc@[k].0@ == c by {
                            if is_cell(c) && !it@.contains(c) && c != position@ {
                                let k = choose|k: int| 0 <= k < prev.len() && prev[k].0@ == c;
                                assert(acc@[k].0@ == c);
                            }
                            if c == position@ {
                                assert(acc@[prev.len() as int].0@ == c);
                            }
                            if exists|k: int| 0 <= k < acc@.len() && acc@[k].0@ == c {
                                let k = choose|k: int| 0 <= k < acc@.len() && acc@[k].0@ == c;
                                if k < prev.len() {
                                    assert(prev[k].0@ == c);
                                }
                            }
                        }
                    }
                },
            }
        }
        acc
    }

    /// Every player has placed workers: four stand on the board.
    pub fn setup_done(&self) -> (r: bool)
        ensures
            r == (self@.occupied().len() == 4),
    {
        self.get_meeple().len() == 4
    }

    pub fn current_player(&self) -> (r: Player)
        ensures
            r == self@.next,
    {
        self.next_player
    }

    /// Every turn that the player to act may take, each once. While that
    /// player has no workers these are all the setups on cells the other
    /// player leaves free, the one that puts both workers on a single cell
    /// included; `Game` never offers that one, as it takes the second cell
    /// apart from the first.
    pub fn possible_move(&self) -> (r: Vec<Turn>)
        ensures
            forall|t: Turn| #[trigger] r@.contains(t) <==> self@.generates(t),
            r@.no_duplicates(),
    {
        let mut acc: Vec<Turn> = Vec::new();
        let own = self.get_player_meeple(self.next_player);
        if !own.is_empty() {
            let mut it = own.into_iter();
            loop
                invariant
                    it@.subset_of(own@),
                    own@ == self@.workers(self@.next),
                    !own@.is_empty(),
                    forall|t: Turn| #[trigger]
                        acc@.contains(t) <==> self@.generates(t) && (start_of(t) matches Some(
                            s,
                        ) && !it@.contains(s@)),
                    acc@.no_duplicates(),
                ensures
                    it@.is_empty(),
                decreases it@.len(),
            {
                proof {
                    it.lemma_finite();
                }
                let ghost prev_it = it@;
                match it.next() {
                    None => {
                        break ;
                    },
                    Some(orig_pos) => {
                        proof {
                            use_type_invariant(&orig_pos);
                        }
                        let ghost prev = acc@;
                        proof {
                            assert forall|t: Turn| #[trigger]
                                acc@.contains(t) implies start_of(t) != Some(orig_pos) by {
                                assert(prev_it.contains(orig_pos@));
                            }
                        }
                        self.push_moves_from(&mut acc, orig_pos);
                        proof {
                            assert forall|t: Turn| #[trigger] acc@.contains(t) <==> self@.generates(
                                t,
                            ) && (start_of(t) matches Some(s) && !it@.contains(s@)) by {
                                match t {
                                    Turn::MoveBuild { start: s, .. } => {
                                        if s.inv() && s@ == orig_pos@ {
                                            s.lemma_view_injective(orig_pos);
                                        }
                                    },
                                    Turn::FinalMove { start: s, .. } => {
                                        if s.inv() && s@ == orig_pos@ {
                                            s.lemma_view_injective(orig_pos);
                                        }
                                    },
                                    _ => {},
                                }
                            }
                        }
                    },
                }
            }
        } else {
            let empty_spot = PositionSet::all().difference(
                self.get_player_meeple(self.next_player.other_player()),
            );
            let mut first = empty_spot.into_iter();
            loop
                invariant
                    first@.subset_of(empty_spot@),
                    empty_spot@ == all_cells().difference(self@.workers(self@.next.other())),
                    self@.workers(self@.next).is_empty(),
                    forall|t: Turn| #[trigger]
                        acc@.contains(t) <==> self@.generates(t) && (t matches Turn::Setup(
                            p1,
                            _,
                        ) && !first@.contains(p1@)),
                    acc@.no_duplicates(),
                ensures
                    first@.is_empty(),
                decreases first@.len(),
            {
                proof {
                    first.lemma_finite();
                }
                let ghost first_before = first@;
                match first.next() {
                    None => {
                        break ;
                    },
                    Some(pos1) => {
                        proof {
                            use_type_invariant(&pos1);
                        }
                        let mut second = empty_spot.into_iter();
                        let ghost before = acc@;
                        proof {
                            assert forall|t: Turn| #[trigger]
                                before.contains(t) implies !(t matches Turn::Setup(p1, _) && p1
                                == pos1) by {
                                assert(first_before.contains(pos1@));
                            }
                        }
                        loop
                            invariant
                                second@.subset_of(empty_spot@),
                                empty_spot@ == all_cells().difference(
                                    self@.workers(self@.next.other()),
                                ),
                                self@.workers(self@.next).is_empty(),
                                empty_spot@.contains(pos1@),
                                pos1.inv(),
                                forall|t: Turn| #[trigger]
                                    acc@.contains(t) <==> before.contains(t) || (
                                    self@.generates(t) && (t matches Turn::Setup(p1, p2) && p1
                                    == pos1 && !second@.contains(p2@))),
                                acc@.no_duplicates(),
                                forall|t: Turn| #[trigger]
                                    before.contains(t) ==> !(t matches Turn::Setup(p1, _) && p1
                                        == pos1),
                            ensures
                                second@.is_empty(),
                            decreases second@.len(),
                        {
                            proof {
                                second.lemma_finite();
                            }
                            match second.next() {
                                None => {
                                    break ;
                                },
                                Some(pos2) => {
                                    proof {
                                        use_type_invariant(&pos2);
                                    }
                                    let ghost prev = acc@;
                                    let turn = Turn::Setup(pos1, pos2);
                                    proof {
                                        assert(!prev.contains(turn));
                                        lemma_push_no_duplicates(prev, turn);
                                    }
                                    acc.push(turn);
                                    proof {
                                        lemma_push_contains(prev, turn);
                                        assert forall|t: Turn| #[trigger]
                                            acc@.contains(t) <==> before.contains(t) || (
                                            self@.generates(t) && (t matches Turn::Setup(p1, p2)
                                            && p1 == pos1 && !second@.contains(p2@))) by {
                                            if let Turn::Setup(p1, p2) = t {
                                                if p2.inv() && p2@ == pos2@ {
                                                    p2.lemma_view_injective(pos2);
                                                }
                                            }
                                        }
                                    }
                                },
                            }
                        }
                        proof {
                            assert forall|t: Turn| #[trigger]
                                acc@.contains(t) <==> self@.generates(t) && (t matches Turn::Setup(
                                p1,
                                _,
                            ) && !first@.contains(p1@)) by {
                                if let Turn::Setup(p1, p2) = t {
                                    if p1.inv() && p1@ == pos1@ {
                                        p1.lemma_view_injective(pos1);
                                    }
                                }
                            }
                        }
                    },
                }
            }
        }
        acc
    }

    /// Appends a move and build for every cell that may be built on after
    /// the worker on `start` goes to `end`.
    fn push_builds(&self, acc: &mut Vec<Turn>, start: Position, end: Position)
        requires
            adjacent(start@, end@),
            old(acc)@.no_duplicates(),
            forall|t: Turn| #[trigger]
                old(acc)@.contains(t) ==> start_of(t) != Some(start) || end_of(t) != end,
        ensures
            final(acc)@.no_duplicates(),
            forall|t: Turn| #[trigger]
                final(acc)@.contains(t) <==> old(acc)@.contains(t) || builds_among(
                    t,
                    start,
                    end,
                    Set::new(|b: int| self@.build_offered(start@, end@, b)),
                ),
    {
        proof {
            use_type_invariant(&start);
            use_type_invariant(&end);
        }
        let left = [start];
        let vacated = PositionSet::from(left);
        proof {
            PositionSet::lemma_from_cells(left@);
            assert(indices_of(left@) =~= set![start@]) by {
                assert(left@[0] == start);
            }
        }
        let candidates = end.get_neighbors().difference(self.dome).difference(
            self.get_meeple(),
        ).union(vacated);
        let ghost all = candidates@;
        let ghost before = acc@;
        proof {
            assert forall|b: int| all.contains(b) <==> self@.build_offered(start@, end@, b) by {
                if b == start@ {
                    assert(adjacent(end@, start@));
                }
            }
        }
        let mut it = candidates.into_iter();
        loop
            invariant
                it@.subset_of(all),
                forall|b: int| all.contains(b) <==> self@.build_offered(start@, end@, b),
                forall|t: Turn| #[trigger]
                    acc@.contains(t) <==> before.contains(t) || builds_among(
                        t,
                        start,
                        end,
                        all.difference(it@),
                    ),
                acc@.no_duplicates(),
                forall|t: Turn| #[trigger]
                    before.contains(t) ==> start_of(t) != Some(start) || end_of(t) != end,
            ensures
                it@.is_empty(),
            decreases it@.len(),
        {
            proof {
                it.lemma_finite();
            }
            match it.next() {
                None => {
                    break ;
                },
                Some(build) => {
                    proof {
                        use_type_invariant(&build);
                    }
                    let ghost prev = acc@;
                    let turn = Turn::MoveBuild { start, end, build };
                    proof {
                        assert(!prev.contains(turn));
                        lemma_push_no_duplicates(prev, turn);
                    }
                    acc.push(turn);
                    proof {
                        lemma_push_contains(prev, turn);
                        assert forall|t: Turn| #[trigger] acc@.contains(t) implies before.contains(t)
                            || builds_among(t, start, end, all.difference(it@)) by {
                            if t != turn {
                                assert(prev.contains(t));
                            }
                        }
                        assert forall|t: Turn| #[trigger]
                            before.contains(t) || builds_among(t, start, end, all.difference(it@))
                            implies acc@.contains(t) by {
                            if let Turn::MoveBuild { start: s, end: e, build: b } = t {
                                if !before.contains(t) && b@ == build@ {
                                    b.lemma_view_injective(build);
                                }
                            }
                        }
                    }
                },
            }
        }
    }

    /// Appends every move, with each of its builds, that the worker on
    /// `start` may make.
    fn push_moves_from(&self, acc: &mut Vec<Turn>, start: Position)
        requires
            self@.workers(self@.next).contains(start@),
            old(acc)@.no_duplicates(),
            forall|t: Turn| #[trigger] old(acc)@.contains(t) ==> start_of(t) != Some(start),
        ensures
            final(acc)@.no_duplicates(),
            forall|t: Turn| #[trigger]
                final(acc)@.contains(t) <==> old(acc)@.contains(t) || moves_among(
                    self@,
                    t,
                    start,
                    all_cells(),
                ),
    {
        proof {
            use_type_invariant(&start);
        }
        let meeple = self.get_meeple();
        let candidates = start.get_neighbors().difference(meeple);
        let ghost all = candidates@;
        let ghost before = acc@;
        let from = self.get_construction(start);
        let mut it = candidates.into_iter();
        loop
            invariant
                it@.subset_of(all),
                all == Set::new(|j: int| is_cell(j) && adjacent(start@, j)).difference(
                    self@.occupied(),
                ),
                from == self@.level(start@),
                self@.workers(self@.next).contains(start@),
                forall|t: Turn| #[trigger]
                    acc@.contains(t) <==> before.contains(t) || moves_among(
                        self@,
                        t,
                        start,
                        all.difference(it@),
                    ),
                acc@.no_duplicates(),
                forall|t: Turn| #[trigger] before.contains(t) ==> start_of(t) != Some(start),
            ensures
                it@.is_empty(),
            decreases it@.len(),
        {
            proof {
                it.lemma_finite();
            }
            let ghost done = all.difference(it@);
            match it.next() {
                None => {
                    break ;
                },
                Some(end) => {
                    proof {
                        use_type_invariant(&end);
                        assert forall|t: Turn| moves_among(self@, t, start, all.difference(it@))
                            <==> moves_among(self@, t, start, done) || (moves_among(
                            self@,
                            t,
                            start,
                            all_cells(),
                        ) && match t {
                            Turn::MoveBuild { end: e, .. } => e == end,
                            Turn::FinalMove { end: e, .. } => e == end,
                            _ => false,
                        }) by {
                            match t {
                                Turn::MoveBuild { end: e, .. } => {
                                    if e.inv() && e@ == end@ {
                                        e.lemma_view_injective(end);
                                    }
                                },
                                Turn::FinalMove { end: e, .. } => {
                                    if e.inv() && e@ == end@ {
                                        e.lemma_view_injective(end);
                                    }
                                },
                                _ => {},
                            }
                        }
                    }
                    proof {
                        assert forall|t: Turn| #[trigger]
                            acc@.contains(t) implies start_of(t) != Some(start) || end_of(t)
                            != end by {
                            if !before.contains(t) {
                                match t {
                                    Turn::MoveBuild { end: e, .. } => {
                                        assert(done.contains(e@));
                                    },
                                    Turn::FinalMove { end: e, .. } => {
                                        assert(done.contains(e@));
                                    },
                                    _ => {},
                                }
                            }
                        }
                    }
                    if from.can_move(self.get_construction(end)) {
                        if self.third_floor.contains(end) {
                            let ghost prev = acc@;
                            let turn = Turn::FinalMove { start, end };
                            proof {
                                assert(!prev.contains(turn));
                                lemma_push_no_duplicates(prev, turn);
                            }
                            acc.push(turn);
                            proof {
                                lemma_push_contains(prev, turn);
                            }
                        } else {
                            self.push_builds(acc, start, end);
                        }
                    }
                },
            }
        }
        proof {
            assert forall|t: Turn| moves_among(self@, t, start, all_cells()) implies moves_among(
                self@,
                t,
                start,
                all.difference(it@),
            ) by {}
        }
    }

    /// Raises the construction on a cell by one level; a dome cannot be
    /// raised.
    fn build(&mut self, position: Position) -> (r: Result<()>)
        ensures
            r is Err <==> old(self)@.dome.contains(position@),
            r is Ok ==> final(self)@ == old(self)@.built(position@),
            r is Err ==> *final(self) == *old(self),
            r matches Err(e) ==> e == GameError::InvalidMove,
    {
        proof {
            use_type_invariant(&*self);
        }
        if self.dome.contains(position) {
            return Err(GameError::InvalidMove);
        } else if self.third_floor.contains(position) {
            self.third_floor.remove(position);
            self.dome.add(position);
        } else if self.second_floor.contains(position) {
            self.second_floor.remove(position);
            self.third_floor.add(position);
        } else if self.first_floor.contains(position) {
            self.first_floor.remove(position);
            self.second_floor.add(position);
        } else {
            self.first_floor.add(position);
        }
        proof {
            assert(self@ =~= old(self)@.built(position@));
        }
        Ok(())
    }
}

} // verus!
