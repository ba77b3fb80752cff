use santorini::game::board::Board;
use santorini::game::error::GameError;
use santorini::game::prelude::{Construction, Player, Position, PositionSet};
use santorini::game::turn::Turn;

fn set_of(positions: &[Position]) -> PositionSet {
    let mut set = PositionSet::new();
    for p in positions {
        set.add(*p);
    }
    set
}

/// A board with the given workers, levels and player to act.
fn board_of(
    player1: &[Position],
    player2: &[Position],
    levels: [&[Position]; 4],
    next: Player,
) -> Board {
    Board::from_sets(
        set_of(player1),
        set_of(player2),
        set_of(levels[0]),
        set_of(levels[1]),
        set_of(levels[2]),
        set_of(levels[3]),
        next,
    )
    .unwrap()
}

#[test]
fn new() {
    let board = Board::new();
    for (_, tile) in board.get_tiles() {
        assert_eq!(tile.construction, Construction::GroundLevel);
        assert!(tile.player.is_none())
    }
}

#[test]
fn place_worker_empty() {
    let p1 = Position::new(1, 2);
    let p2 = Position::new(3, 2);
    let board = Board::new().place_worker(p1, p2).unwrap();
    assert_eq!(board.get_tile(p1).player, Some(Player::Player1));
    assert_eq!(board.get_tile(p2).player, Some(Player::Player1));
}

#[test]
fn place_worker_non_empty() {
    let p1 = Position::new(1, 2);
    let p2 = Position::new(3, 2);
    let board = Board::new().place_worker(p1, p2).unwrap();

    assert_eq!(
        board.place_worker(p1, p2).err(),
        Some(GameError::InvalidMove)
    );
}

#[test]
fn action() {
    let board = board_of(&[Position::new(1, 2)], &[], [&[], &[], &[], &[]], Player::Player1);

    let new_board = board
        .action(&Turn::MoveBuild {
            start: Position::new(1, 2),
            end: Position::new(2, 2),
            build: Position::new(2, 3),
        })
        .unwrap();
    assert_eq!(new_board.get_tile(Position::new(1, 2)).player, None);
    assert_eq!(
        new_board.get_tile(Position::new(2, 2)).player,
        Some(Player::Player1)
    );
    assert_eq!(
        new_board.get_tile(Position::new(2, 3)).construction,
        Construction::FirstLevel
    );
}

#[test]
fn possible_move() {
    let occupied = Position::new(2, 2);
    let board = board_of(&[occupied], &[], [&[], &[], &[], &[]], Player::Player1);
    let possible_moves = board.possible_move();
    assert_eq!(possible_moves.len(), 8 * 8);
    for possible_move in possible_moves {
        assert!(board.action(&possible_move).is_ok());
    }
}

#[test]
fn board_are_neighbors() {
    assert!(Position::are_neighbors(
        Position::new(1, 2),
        Position::new(2, 3)
    ));
    assert!(!Position::are_neighbors(
        Position::new(1, 2),
        Position::new(3, 3)
    ));
}

#[test]
fn get_neighbors() {
    let occupied = Position::new(1, 1);
    let neighbors = occupied.get_neighbors();

    assert_eq!(neighbors.len(), 8);
    let mut it = neighbors.into_iter();
    while let Some(neighbor) = it.next() {
        assert!(Position::are_neighbors(occupied, neighbor));
    }
}
