use santorini::game::board::Board;
use santorini::game::error::GameError;
use santorini::game::prelude::{Construction, Player, Position, PositionSet};
use santorini::game::turn::Turn;

fn set_of(positions: &[Position]) -> PositionSet {
    let mut set = PositionSet::new();
    for p in positions {
        set.add(*p);
    }
    set
}

/// A board with the given workers, levels and player to act.
fn board_of(
    player1: &[Position],
    player2: &[Position],
    levels: [&[Position]; 4],
    next: Player,
) -> Board {
    Board::from_sets(
        set_of(player1),
        set_of(player2),
        set_of(levels[0]),
        set_of(levels[1]),
        set_of(levels[2]),
        set_of(levels[3]),
        next,
    )
    .unwrap()
}

fn start_of(turn: &Turn) -> Option<Position> {
    match turn {
        Turn::MoveBuild { start, .. } | Turn::FinalMove { start, .. } => Some(*start),
        Turn::Setup(_, _) => None,
    }
}

fn both_placed() -> Board {
    Board::new()
        .place_worker(Position::new(1, 1), Position::new(3, 3))
        .unwrap()
        .place_worker(Position::new(1, 3), Position::new(3, 1))
        .unwrap()
}

#[test]
fn single_worker_turn_counts() {
    // From (1, 2): eight destinations, three of them on the top row with
    // five cells to build on, the others with eight.
    let board = board_of(&[Position::new(1, 2)], &[], [&[], &[], &[], &[]], Player::Player1);
    let turns = board.possible_move();
    assert_eq!(turns.len(), 3 * 5 + 5 * 8);
    for turn in &turns {
        assert!(board.action(turn).is_ok());
    }
    let centre = board_of(&[Position::new(2, 2)], &[], [&[], &[], &[], &[]], Player::Player1);
    assert_eq!(centre.possible_move().len(), 8 * 8);
}

#[test]
fn placed_workers_belong_to_player_one() {
    let board = Board::new()
        .place_worker(Position::new(1, 2), Position::new(3, 2))
        .unwrap();
    assert_eq!(board.get_tile(Position::new(1, 2)).player, Some(Player::Player1));
    assert_eq!(board.get_tile(Position::new(3, 2)).player, Some(Player::Player1));
    assert_eq!(board.get_tile(Position::new(2, 2)).player, None);
    assert_eq!(board.current_player(), Player::Player2);
    assert!(!board.setup_done());
}

#[test]
fn placing_on_the_other_players_worker_fails() {
    let board = Board::new()
        .place_worker(Position::new(1, 2), Position::new(3, 2))
        .unwrap();
    assert_eq!(
        board
            .place_worker(Position::new(0, 0), Position::new(3, 2))
            .err(),
        Some(GameError::InvalidMove)
    );
    let done = board
        .place_worker(Position::new(0, 0), Position::new(4, 4))
        .unwrap();
    assert!(done.setup_done());
    assert_eq!(done.current_player(), Player::Player1);
}

#[test]
fn setup_turns_cover_every_free_pair() {
    let board = Board::new();
    let turns = board.possible_move();
    assert_eq!(turns.len(), 25 * 25);
    assert!(turns.contains(&Turn::Setup(Position::new(2, 2), Position::new(2, 2))));
    let board = board
        .place_worker(Position::new(0, 0), Position::new(0, 1))
        .unwrap();
    let turns = board.possible_move();
    assert_eq!(turns.len(), 23 * 23);
    for turn in &turns {
        assert!(matches!(turn, Turn::Setup(_, _)));
        assert!(board.action(turn).is_ok());
    }
    assert_eq!(
        board.action(&Turn::Setup(Position::new(0, 0), Position::new(4, 4))).err(),
        Some(GameError::InvalidMove)
    );
}

#[test]
fn action_rejects_broken_moves() {
    let board = board_of(
        &[Position::new(1, 1), Position::new(3, 3)],
        &[Position::new(1, 3), Position::new(3, 1), Position::new(1, 0)],
        [&[], &[], &[], &[Position::new(2, 2), Position::new(0, 0)]],
        Player::Player1,
    );
    let invalid = Some(GameError::InvalidMove);
    let far = Turn::MoveBuild {
        start: Position::new(1, 1),
        end: Position::new(4, 4),
        build: Position::new(4, 3),
    };
    assert_eq!(board.action(&far).err(), invalid);
    let onto_worker = Turn::MoveBuild {
        start: Position::new(1, 1),
        end: Position::new(1, 0),
        build: Position::new(2, 0),
    };
    assert_eq!(board.action(&onto_worker).err(), invalid);
    let onto_dome = Turn::MoveBuild {
        start: Position::new(1, 1),
        end: Position::new(2, 2),
        build: Position::new(2, 3),
    };
    assert_eq!(board.action(&onto_dome).err(), invalid);
    let no_build = Turn::FinalMove {
        start: Position::new(1, 1),
        end: Position::new(0, 1),
    };
    assert_eq!(board.action(&no_build).err(), invalid);
    let on_dome = Turn::MoveBuild {
        start: Position::new(1, 1),
        end: Position::new(0, 1),
        build: Position::new(0, 0),
    };
    assert_eq!(board.action(&on_dome).err(), invalid);
    let on_worker = Turn::MoveBuild {
        start: Position::new(1, 1),
        end: Position::new(2, 1),
        build: Position::new(3, 1),
    };
    assert_eq!(board.action(&on_worker).err(), invalid);
    let not_mine = Turn::MoveBuild {
        start: Position::new(1, 3),
        end: Position::new(0, 3),
        build: Position::new(0, 4),
    };
    assert_eq!(board.action(&not_mine).err(), invalid);
    assert_eq!(
        board
            .action(&Turn::Setup(Position::new(4, 4), Position::new(4, 3)))
            .err(),
        invalid
    );
    let fine = Turn::MoveBuild {
        start: Position::new(1, 1),
        end: Position::new(0, 1),
        build: Position::new(1, 1),
    };
    assert!(board.action(&fine).is_ok());
}

#[test]
fn generated_turns_always_apply() {
    let board = board_of(
        &[Position::new(1, 1), Position::new(3, 3)],
        &[Position::new(1, 3), Position::new(3, 1)],
        [
            &[Position::new(2, 2)],
            &[Position::new(0, 1)],
            &[Position::new(0, 2)],
            &[Position::new(2, 1)],
        ],
        Player::Player1,
    );
    let turns = board.possible_move();
    assert!(!turns.is_empty());
    for turn in &turns {
        assert!(board.action(turn).is_ok());
    }
}

#[test]
fn vacated_cell_is_buildable_but_left_empty() {
    let board = both_placed();
    let turns = board.possible_move();
    let back = Turn::MoveBuild {
        start: Position::new(1, 1),
        end: Position::new(2, 2),
        build: Position::new(1, 1),
    };
    assert!(turns.contains(&back));
    assert!(!turns.iter().any(|t| matches!(t, Turn::MoveBuild { start, end, .. } if start == end)));
    for turn in &turns {
        let vacated = start_of(turn).unwrap();
        let after = board.action(turn).unwrap();
        assert_eq!(after.get_tile(vacated).player, None);
        for next in after.possible_move() {
            assert_ne!(start_of(&next), Some(vacated));
        }
    }
    let after = board.action(&back).unwrap();
    assert_eq!(
        after.get_tile(Position::new(1, 1)).construction,
        Construction::FirstLevel
    );
}

#[test]
fn climbing_to_the_third_level_is_a_final_move() {
    let board = board_of(
        &[Position::new(1, 1), Position::new(3, 3)],
        &[Position::new(1, 3), Position::new(3, 1)],
        [
            &[],
            &[Position::new(1, 1), Position::new(2, 2)],
            &[Position::new(0, 1), Position::new(4, 4)],
            &[],
        ],
        Player::Player1,
    );
    let turns = board.possible_move();
    let win = Turn::FinalMove {
        start: Position::new(1, 1),
        end: Position::new(0, 1),
    };
    assert!(turns.contains(&win));
    assert!(turns.contains(&Turn::MoveBuild {
        start: Position::new(1, 1),
        end: Position::new(2, 2),
        build: Position::new(2, 3),
    }));
    // The worker on (3, 3) is on the ground: it may not climb to (2, 2).
    assert!(!turns.iter().any(|t| matches!(t,
        Turn::MoveBuild { start, end, .. } if *start == Position::new(3, 3) && *end == Position::new(2, 2))));
    assert!(!turns.iter().any(|t| matches!(t,
        Turn::FinalMove { start, .. } if *start == Position::new(3, 3))));
    let after = board.action(&win).unwrap();
    assert_eq!(after.get_tile(Position::new(0, 1)).player, Some(Player::Player1));
    assert_eq!(after.current_player(), Player::Player2);
}

#[test]
fn building_raises_one_level_at_a_time() {
    // Player 1 builds on (3, 2) each turn; player 2 walks along the top row.
    let mut board = board_of(
        &[Position::new(2, 2)],
        &[Position::new(0, 0)],
        [&[], &[], &[], &[]],
        Player::Player1,
    );
    let levels = [
        Construction::FirstLevel,
        Construction::SecondLevel,
        Construction::ThirdLevel,
        Construction::Dome,
    ];
    for (k, level) in levels.iter().enumerate() {
        let (start, end) = if k % 2 == 0 {
            (Position::new(2, 2), Position::new(2, 1))
        } else {
            (Position::new(2, 1), Position::new(2, 2))
        };
        board = board
            .action(&Turn::MoveBuild { start, end, build: Position::new(3, 2) })
            .unwrap();
        assert_eq!(board.get_tile(Position::new(3, 2)).construction, *level);
        let (from, to) = if k % 2 == 0 {
            (Position::new(0, 0), Position::new(0, 1))
        } else {
            (Position::new(0, 1), Position::new(0, 0))
        };
        board = board
            .action(&Turn::MoveBuild { start: from, end: to, build: Position::new(1, 0) })
            .unwrap();
    }
    let again = board.action(&Turn::MoveBuild {
        start: Position::new(2, 2),
        end: Position::new(2, 1),
        build: Position::new(3, 2),
    });
    assert_eq!(again.err(), Some(GameError::InvalidMove));
}

#[test]
fn boards_from_sets_keep_cells_apart() {
    assert!(Board::from_sets(
        set_of(&[Position::new(0, 0)]),
        set_of(&[Position::new(0, 0)]),
        PositionSet::new(),
        PositionSet::new(),
        PositionSet::new(),
        PositionSet::new(),
        Player::Player1,
    )
    .is_none());
    assert!(Board::from_sets(
        PositionSet::new(),
        PositionSet::new(),
        set_of(&[Position::new(2, 2)]),
        PositionSet::new(),
        PositionSet::new(),
        set_of(&[Position::new(2, 2)]),
        Player::Player1,
    )
    .is_none());
    let board = board_of(
        &[Position::new(0, 0)],
        &[Position::new(4, 4)],
        [&[Position::new(0, 0)], &[], &[Position::new(1, 1)], &[Position::new(2, 2)]],
        Player::Player2,
    );
    assert_eq!(board.current_player(), Player::Player2);
    assert_eq!(board.get_tile(Position::new(0, 0)).construction, Construction::FirstLevel);
    assert_eq!(board.get_tile(Position::new(0, 0)).player, Some(Player::Player1));
    assert_eq!(board.get_tile(Position::new(1, 1)).construction, Construction::ThirdLevel);
    assert_eq!(board.get_tile(Position::new(2, 2)).construction, Construction::Dome);
    assert_eq!(board.get_tile(Position::new(4, 4)).player, Some(Player::Player2));
}

#[test]
fn third_level_worker_may_step_sideways() {
    // After a winning climb a worker stands on the third level; it may step
    // onto another third-level cell, or down.
    let board = board_of(
        &[Position::new(1, 1)],
        &[Position::new(4, 4)],
        [&[Position::new(2, 1)], &[], &[Position::new(1, 1), Position::new(1, 2)], &[]],
        Player::Player1,
    );
    let turns = board.possible_move();
    let sideways = Turn::FinalMove {
        start: Position::new(1, 1),
        end: Position::new(1, 2),
    };
    assert!(turns.contains(&sideways));
    assert!(board.action(&sideways).is_ok());
    assert!(turns.contains(&Turn::MoveBuild {
        start: Position::new(1, 1),
        end: Position::new(2, 1),
        build: Position::new(1, 1),
    }));
}

#[test]
fn tiles_run_from_the_last_cell_to_the_first() {
    let board = Board::new()
        .place_worker(Position::new(0, 0), Position::new(4, 4))
        .unwrap();
    let tiles = board.get_tiles();
    assert_eq!(tiles.len(), 25);
    assert_eq!(tiles[0].0, Position::new(4, 4));
    assert_eq!(tiles[24].0, Position::new(0, 0));
    assert_eq!(tiles[0].1.player, Some(Player::Player1));
    assert_eq!(tiles[1].0, Position::new(4, 3));
    assert_eq!(tiles[5].0, Position::new(3, 4));
}
