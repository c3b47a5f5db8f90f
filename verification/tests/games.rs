//! Game tests: the toy game, TicTacToe and both 2048 variants.

use mcts::adv2048::Adversarial2048;
use mcts::game::Game;
use mcts::mcts::playout;
use mcts::minigame::{Action as MiniAction, MiniGame};
use mcts::tictactoe::{three_same, GameStatus, Move, Player, TicTacToe};
use mcts::twofortyeight::{Action as TfeAction, TwoFortyEight};
use mcts::utils::Rng;

#[test]
fn minigame_rewards() {
    let mut game = MiniGame::new();
    assert_eq!(game.reward(), 0);
    game.make_move(&MiniAction { add: 5 });
    game.make_move(&MiniAction { add: 3 });
    game.make_move(&MiniAction { add: 3 });
    assert_eq!(game.sum, 11);
    assert_eq!(game.reward(), 65536);
    assert!(game.allowed_actions().is_empty());

    let mut lost = MiniGame::new();
    lost.make_move(&MiniAction { add: 5 });
    lost.make_move(&MiniAction { add: 5 });
    lost.make_move(&MiniAction { add: 5 });
    assert_eq!(lost.reward(), -65536);
}

#[test]
fn minigame_allowed_actions() {
    let game = MiniGame::new();
    let moves = game.allowed_actions();
    assert_eq!(moves.len(), 3);
    assert_eq!(moves[0], MiniAction { add: 3 });
    assert_eq!(moves[1], MiniAction { add: 4 });
    assert_eq!(moves[2], MiniAction { add: 5 });
}

#[test]
fn player_other() {
    assert_eq!(Player::Cross.other(), Player::Circle);
    assert_eq!(Player::Circle.other(), Player::Cross);
    assert_eq!(Player::Nobody.other(), Player::Nobody);
}

#[test]
fn three_same_players() {
    assert_eq!(
        three_same(Player::Cross, Player::Cross, Player::Cross),
        Player::Cross
    );
    assert_eq!(
        three_same(Player::Cross, Player::Circle, Player::Cross),
        Player::Nobody
    );
}

#[test]
fn tictactoe_row_win() {
    let mut game = TicTacToe::new();
    assert_eq!(game.game_status(), GameStatus::Ongoing);
    game.set_field(1, 0, Player::Cross);
    game.set_field(1, 1, Player::Cross);
    game.set_field(1, 2, Player::Cross);
    assert_eq!(game.game_status(), GameStatus::Won(Player::Cross));
}

#[test]
fn tictactoe_column_win() {
    let mut game = TicTacToe::new();
    game.set_field(0, 2, Player::Circle);
    game.set_field(1, 2, Player::Circle);
    game.set_field(2, 2, Player::Circle);
    assert_eq!(game.game_status(), GameStatus::Won(Player::Circle));
}

#[test]
fn tictactoe_draw() {
    // A full board without a straight row or column line is a draw.
    let mut game = TicTacToe::new();
    let layout = [
        [Player::Cross, Player::Circle, Player::Cross],
        [Player::Circle, Player::Cross, Player::Circle],
        [Player::Circle, Player::Cross, Player::Circle],
    ];
    for (y, row) in layout.iter().enumerate() {
        for (x, p) in row.iter().enumerate() {
            game.set_field(y as u8, x as u8, *p);
        }
    }
    assert_eq!(game.game_status(), GameStatus::Won(Player::Nobody));
}

#[test]
fn tictactoe_moves_and_rewards() {
    let mut game = TicTacToe::new();
    assert_eq!(game.allowed_actions().len(), 9);
    assert!(game.make_move(&Move { x: 1, y: 1 }));
    assert_eq!(game.get_field(1, 1), Player::Cross);
    assert_eq!(game.allowed_actions().len(), 8);
    assert!(!game.make_move(&Move { x: 7, y: 0 }));
    assert_eq!(game.reward(), 0);

    game.set_field(0, 0, Player::Circle);
    game.set_field(1, 0, Player::Circle);
    game.set_field(2, 0, Player::Circle);
    assert_eq!(game.reward(), -65536);
}

#[test]
fn tictactoe_playout_fills_board() {
    let game = TicTacToe::new();
    let mut rng = Rng::from_seed(9);
    let done = playout(&game, &mut rng);
    assert!(done.allowed_actions().is_empty());
}

#[test]
fn test_new() {
    let game = TwoFortyEight::new();

    assert_eq!(game.reward(), 0);
}

#[test]
fn test_setget_tile() {
    let mut game = TwoFortyEight::new();

    let coords = vec![(0, 1, 2), (2, 2, 4), (3, 1, 16)];

    // Set given tiles
    for (row, col, num) in coords.clone() {
        game.set_tile(row, col, num);
    }

    // Check given tiles
    for (row, col, num) in coords.clone() {
        assert_eq!(game.get_tile(row, col), num);
    }
}

#[test]
fn test_random_spawn() {
    let mut game = TwoFortyEight::new();

    for _ in 0..16 {
        assert!(!game.board_full());
        game.random_spawn();
    }
    assert!(game.board_full());
}

#[test]
fn test_merge_vec() {
    let test_cases: Vec<(Vec<u32>, Vec<u32>)> = vec![
        (vec![2, 0, 4, 4], vec![2, 8, 0, 0]),
        (vec![2, 4, 2, 2], vec![2, 4, 4, 0]),
        (vec![2, 2, 2, 0], vec![4, 2, 0, 0]),
        (vec![1, 2, 0, 0, 4], vec![1, 2, 4, 0, 0]),
        (vec![1, 2, 2, 0, 4], vec![1, 4, 4, 0, 0]),
        (vec![1, 2, 2, 2, 4], vec![1, 4, 2, 4, 0]),
        (vec![0, 2, 0, 2, 0], vec![4, 0, 0, 0, 0]),
    ];

    for (input, should) in test_cases {
        let output = TwoFortyEight::merge_vec(&input);
        println!("merge_vec({:?}) => {:?}  (should be {:?})", input, output, should);
        assert_eq!(output.0, should);
    }
}

#[test]
fn merge_vec_scores_merged_values() {
    let (merged, points, changed) = TwoFortyEight::merge_vec(&vec![2, 2, 4, 4]);
    assert_eq!(merged, vec![4, 8, 0, 0]);
    assert_eq!(points, 12);
    assert!(changed);

    let (same, nothing, unchanged) = TwoFortyEight::merge_vec(&vec![2, 4, 8, 16]);
    assert_eq!(same, vec![2, 4, 8, 16]);
    assert_eq!(nothing, 0);
    assert!(!unchanged);
}

#[test]
fn test_shift_and_merge() {
    let actions = vec![TfeAction::Down, TfeAction::Right, TfeAction::Up, TfeAction::Left];

    let mut board: Vec<u32> = vec![0; 16];
    board[2 * 4 + 2] = 4;

    for a in &actions {
        let (shifted, points) = TwoFortyEight::shift_and_merge(&board, a);
        assert!(points.unwrap() == 0);
        board = shifted;
    }
    assert!(board[0] == 4);
}

#[test]
fn test_playout() {
    let mut game = TwoFortyEight::new();
    game.random_spawn();
    game.random_spawn();
    let mut rng = Rng::from_seed(9);
    let final_game = playout(&game, &mut rng);
    println!("{:?}", final_game);
    assert!(final_game.allowed_actions().is_empty());
}

#[test]
fn adv2048_test_new() {
    let game = Adversarial2048::new();

    assert_eq!(game.reward(), 0);
}

#[test]
fn adv2048_test_setget_tile() {
    let mut game = Adversarial2048::new();

    let coords = vec![(0, 1, 2), (2, 2, 4), (3, 1, 16)];

    // Set given tiles
    for (row, col, num) in coords.clone() {
        game.set_tile(row, col, num);
    }

    // Check given tiles
    for (row, col, num) in coords.clone() {
        assert_eq!(game.get_tile(row, col), num);
    }
}

#[test]
fn adv2048_test_random_spawn() {
    let mut game = Adversarial2048::empty();

    for _ in 0..16 {
        assert!(!game.board_full());
        game.random_spawn();
    }
    assert!(game.board_full());
}

#[test]
fn adv2048_test_playout() {
    let game = Adversarial2048::new();
    let mut rng = Rng::from_seed(9);
    let final_game = playout(&game, &mut rng);
    println!("{:?}", final_game);
    assert!(final_game.allowed_actions().is_empty());
}

#[test]
fn adv2048_alternates_turns() {
    let mut game = Adversarial2048::new();
    let first = game.allowed_actions();
    assert!(!first.is_empty());
    // Fresh games expect a player move.
    assert!(matches!(first[0], mcts::adv2048::Action::PlayerAction(_)));
    assert!(game.make_move(&first[0]));
    let second = game.allowed_actions();
    assert!(!second.is_empty());
    // After the player moved, the adversary spawns.
    assert!(matches!(second[0], mcts::adv2048::Action::SpawnAction(_)));
}
