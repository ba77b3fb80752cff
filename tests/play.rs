use santorini::control::select;
use santorini::game::board::Board;
use santorini::game::prelude::{Construction, Player, Position, PositionSet};
use santorini::game::turn::Turn;
use santorini::game::Game;
use santorini::player::greedy::{best_index, elevation, Greedy};
use santorini::player::random::RandomPlayer;
use santorini::player::{get_player_from_selection, Player as _, Strategy};

/// A board with the given workers, levels and player to act.
fn board_of(
    player1: &[Position],
    player2: &[Position],
    levels: [&[Position]; 4],
    next: Player,
) -> Board {
    Board::from_sets(
        set_of(player1),
        set_of(player2),
        set_of(levels[0]),
        set_of(levels[1]),
        set_of(levels[2]),
        set_of(levels[3]),
        next,
    )
    .unwrap()
}

fn set_of(positions: &[Position]) -> PositionSet {
    let mut set = PositionSet::new();
    for p in positions {
        set.add(*p);
    }
    set
}

fn set_up(game: &mut Game) {
    game.register_selection(Position::new(1, 1));
    game.register_selection(Position::new(3, 3));
    game.register_selection(Position::new(1, 3));
    game.register_selection(Position::new(3, 1));
}

#[test]
fn game_setup_goes_through_both_players() {
    let mut game = Game::new();
    assert_eq!(game.selectable().len(), 25);
    assert_eq!(game.next_action(), "Player 1: Place your first worker!");
    assert!(game.selected().is_empty());
    game.register_selection(Position::new(1, 2));
    assert_eq!(game.selected(), vec![Position::new(1, 2)]);
    assert_eq!(game.next_action(), "Player 1: Place your second worker!");
    assert_eq!(game.selectable().len(), 24);
    assert!(!game.selectable().contains(Position::new(1, 2)));
    game.register_selection(Position::new(3, 2));
    assert_eq!(game.board().current_player(), Player::Player2);
    assert_eq!(game.next_action(), "Player 2: Place your first worker!");
    assert_eq!(game.selectable().len(), 23);
    game.register_selection(Position::new(0, 0));
    game.register_selection(Position::new(4, 4));
    assert_eq!(game.next_action(), "Player 1: Pick a worker!");
    assert_eq!(
        *game.selectable(),
        set_of(&[Position::new(1, 2), Position::new(3, 2)])
    );
    assert_eq!(game.winner(), None);
    assert!(game.board().setup_done());
}

#[test]
fn game_move_and_build() {
    let mut game = Game::new();
    set_up(&mut game);
    game.register_selection(Position::new(1, 1));
    assert_eq!(game.next_action(), "Player 1: Move your worker!");
    assert_eq!(game.selectable().len(), 8);
    game.register_selection(Position::new(2, 2));
    assert_eq!(game.next_action(), "Player 1: Build!");
    assert_eq!(game.selected(), vec![Position::new(1, 1), Position::new(2, 2)]);
    assert!(game.selectable().contains(Position::new(1, 1)));
    assert!(!game.selectable().contains(Position::new(3, 3)));
    game.register_selection(Position::new(1, 1));
    let board = game.board();
    assert_eq!(board.get_tile(Position::new(2, 2)).player, Some(Player::Player1));
    assert_eq!(
        board.get_tile(Position::new(1, 1)).construction,
        Construction::FirstLevel
    );
    assert_eq!(game.next_action(), "Player 2: Pick a worker!");
}

#[test]
fn game_cancel_rewinds_the_turn() {
    let mut game = Game::new();
    game.register_selection(Position::new(0, 0));
    game.cancel();
    assert!(game.selected().is_empty());
    assert_eq!(game.selectable().len(), 25);
    assert_eq!(game.next_action(), "Player 1: Place your first worker!");
    set_up(&mut game);
    game.register_selection(Position::new(1, 1));
    game.register_selection(Position::new(2, 2));
    game.cancel();
    assert!(game.selected().is_empty());
    assert_eq!(game.next_action(), "Player 1: Pick a worker!");
    assert_eq!(game.board().get_tile(Position::new(1, 1)).player, Some(Player::Player1));
}

#[test]
fn select_ignores_cells_that_are_not_selectable() {
    let mut game = Game::new();
    set_up(&mut game);
    select(&mut game, Position::new(0, 0));
    assert!(game.selected().is_empty());
    select(&mut game, Position::new(3, 3));
    assert_eq!(game.selected(), vec![Position::new(3, 3)]);
}

#[test]
fn game_play_applies_whole_turns() {
    let mut game = Game::new();
    game.play(Turn::Setup(Position::new(0, 0), Position::new(0, 1)));
    assert_eq!(game.next_action(), "Player 2: Place your first worker!");
    game.play(Turn::Setup(Position::new(4, 4), Position::new(4, 3)));
    assert_eq!(game.next_action(), "Player 1: Pick a worker!");
    let turn = Turn::MoveBuild {
        start: Position::new(0, 0),
        end: Position::new(1, 0),
        build: Position::new(0, 0),
    };
    game.play(turn);
    assert_eq!(game.board().current_player(), Player::Player2);
    assert_eq!(
        game.board().get_tile(Position::new(0, 0)).construction,
        Construction::FirstLevel
    );
}

#[test]
fn winner_after_reaching_the_third_level() {
    let mut game = Game::new();
    set_up(&mut game);
    // Player 1 raises (0, 1) to the second level and (0, 2) to the third,
    // then steps onto (0, 1); player 2 walks back and forth far away.
    let turns = [
        (Position::new(1, 1), Position::new(1, 2), Position::new(1, 1)),
        (Position::new(3, 1), Position::new(4, 1), Position::new(3, 0)),
        (Position::new(1, 2), Position::new(1, 1), Position::new(0, 1)),
        (Position::new(4, 1), Position::new(3, 1), Position::new(4, 0)),
        (Position::new(1, 1), Position::new(1, 2), Position::new(0, 1)),
        (Position::new(3, 1), Position::new(4, 1), Position::new(3, 2)),
        (Position::new(1, 2), Position::new(1, 1), Position::new(0, 2)),
        (Position::new(4, 1), Position::new(3, 1), Position::new(4, 2)),
        (Position::new(1, 1), Position::new(1, 2), Position::new(0, 2)),
        (Position::new(3, 1), Position::new(4, 1), Position::new(3, 0)),
        (Position::new(1, 2), Position::new(1, 1), Position::new(0, 2)),
        (Position::new(4, 1), Position::new(3, 1), Position::new(4, 0)),
        (Position::new(1, 1), Position::new(0, 1), Position::new(1, 1)),
        (Position::new(3, 1), Position::new(4, 1), Position::new(3, 2)),
    ];
    for (start, end, build) in turns {
        assert_eq!(game.winner(), None);
        game.play(Turn::MoveBuild { start, end, build });
    }
    assert_eq!(
        game.board().get_tile(Position::new(0, 2)).construction,
        Construction::ThirdLevel
    );
    assert_eq!(
        game.board().get_tile(Position::new(0, 1)).construction,
        Construction::SecondLevel
    );
    game.register_selection(Position::new(0, 1));
    game.register_selection(Position::new(0, 2));
    assert!(game.selectable().is_empty());
    assert_eq!(game.winner(), Some(Player::Player1));
}

#[test]
fn random_player_picks_a_possible_turn() {
    let board = board_of(&[Position::new(1, 2)], &[], [&[], &[], &[], &[]], Player::Player1);
    let turns = board.possible_move();
    for _ in 0..20 {
        let turn = RandomPlayer.play(&board);
        assert!(turns.contains(&turn));
    }
}

#[test]
fn greedy_player_climbs() {
    let board = board_of(
        &[Position::new(2, 2), Position::new(4, 4)],
        &[Position::new(0, 0), Position::new(0, 4)],
        [&[Position::new(2, 3)], &[], &[], &[]],
        Player::Player1,
    );
    let greedy = Greedy { eval: elevation };
    let turn = greedy.play(&board);
    assert!(board.possible_move().contains(&turn));
    let after = board.action(&turn).unwrap();
    assert_eq!(elevation(&after), 1);
    match turn {
        Turn::MoveBuild { end, .. } => assert_eq!(end, Position::new(2, 3)),
        _ => panic!("expected a move and build"),
    }
}

#[test]
fn elevation_weights_levels() {
    let workers: &[Position] = &[Position::new(0, 0), Position::new(1, 1)];
    let levels: [&[Position]; 4] = [
        &[Position::new(4, 4)],
        &[Position::new(0, 0)],
        &[Position::new(1, 1)],
        &[],
    ];
    // Player 1 has just moved: its workers score two and three.
    let board = board_of(workers, &[], levels, Player::Player2);
    assert_eq!(elevation(&board), 5);
    let board = board_of(workers, &[], levels, Player::Player1);
    assert_eq!(elevation(&board), 0);
}

#[test]
fn best_index_takes_the_last_highest() {
    assert_eq!(best_index(&vec![1, 3, 3, 2]), 2);
    assert_eq!(best_index(&vec![5]), 0);
    assert_eq!(best_index(&vec![-4, -1, -9]), 1);
}

#[test]
fn strategies_from_menu_choices() {
    assert!(get_player_from_selection(0).is_none());
    assert!(matches!(get_player_from_selection(1), Some(Strategy::Random(_))));
    assert!(matches!(get_player_from_selection(2), Some(Strategy::Greedy)));
    let board = board_of(&[Position::new(2, 2)], &[], [&[], &[], &[], &[]], Player::Player1);
    let turns = board.possible_move();
    let strategy = get_player_from_selection(2).unwrap();
    assert!(turns.contains(&strategy.play(&board)));
}
