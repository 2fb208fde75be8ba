use tic_tac_toe::{Board, Cell, Game, GameError, GameResult, Player};

#[test]
fn test_new_game() {
    let game = Game::new();
    assert_eq!(game.current_player(), Player::Human);
    assert!(game.check_game_over().is_none());
}

#[test]
fn test_human_move() {
    let mut game = Game::new();
    assert!(game.make_human_move(1, 1).is_ok());
    assert_eq!(game.current_player(), Player::Ai);
    assert_eq!(game.board().get(1, 1), Some(Cell::X));
}

#[test]
fn test_invalid_moves() {
    let mut game = Game::new();

    // Test invalid position
    assert_eq!(game.make_human_move(3, 3), Err(GameError::InvalidPosition));

    // Test occupied position
    game.make_human_move(0, 0).unwrap();
    game.make_ai_move().unwrap(); // Switch turns
    assert_eq!(game.make_human_move(0, 0), Err(GameError::PositionOccupied));
}

#[test]
fn test_wrong_player_errors() {
    let mut game = Game::new();

    // Test human trying to move when it's AI's turn
    game.make_human_move(1, 1).unwrap(); // Human moves first
    assert_eq!(game.current_player(), Player::Ai);
    assert_eq!(game.make_human_move(0, 0), Err(GameError::WrongPlayer));

    // Test AI trying to move when it's human's turn
    game.make_ai_move().unwrap(); // AI moves
    assert_eq!(game.current_player(), Player::Human);
    assert_eq!(game.make_ai_move(), Err(GameError::WrongPlayer));
}

#[test]
fn test_game_over_scenarios() {
    // Manually set up a winning condition by directly manipulating the board
    // This bypasses the AI logic and ensures we can test game over behavior
    let mut board = Board::new();
    board.set(0, 0, Cell::X);
    board.set(0, 1, Cell::X);
    board.set(0, 2, Cell::X); // X wins

    // Create a new game with this winning board
    let mut winning_game = Game::new();
    winning_game.board = board;

    // Verify game is over
    assert_eq!(winning_game.check_game_over(), Some(GameResult::HumanWin));

    // Try to make moves after game is over
    assert_eq!(winning_game.make_human_move(1, 1), Err(GameError::GameOver));
    assert_eq!(winning_game.make_ai_move(), Err(GameError::GameOver));
}

#[test]
fn test_game_reset() {
    let mut game = Game::new();
    game.make_human_move(1, 1).unwrap();
    game.reset();

    assert_eq!(game.current_player(), Player::Human);
    assert!(game.board().is_empty(1, 1));
}

#[test]
fn test_complete_game_flow_ai_win() {
    let mut game = Game::new();

    // Simulate a game where AI wins
    // This specific sequence should result in AI victory
    game.make_human_move(0, 0).unwrap(); // X at (0,0)
    assert_eq!(game.current_player(), Player::Ai);

    game.make_ai_move().unwrap(); // AI takes center or strategic position
    assert_eq!(game.current_player(), Player::Human);

    game.make_human_move(0, 1).unwrap(); // X at (0,1)
    game.make_ai_move().unwrap(); // AI blocks or creates threat

    game.make_human_move(1, 0).unwrap(); // X at (1,0)
    game.make_ai_move().unwrap(); // AI should win or block

    // Continue until game ends
    while game.check_game_over().is_none() {
        if game.current_player() == Player::Human {
            // Find any valid move for human
            let empty_positions = game.board().empty_positions();
            if let Some((row, col)) = empty_positions.first() {
                let _ = game.make_human_move(*row, *col);
            }
        } else {
            let _ = game.make_ai_move();
        }
    }

    // Game should end in AI win or draw (AI should never lose)
    let result = game.check_game_over().unwrap();
    assert!(result == GameResult::AiWin || result == GameResult::Draw);
}

#[test]
fn test_draw_game_flow() {
    let mut game = Game::new();

    // Test that AI can handle full game scenarios properly
    // Let the AI and human alternate moves until game ends
    let mut move_count = 0;
    const MAX_MOVES: i32 = 9; // Maximum possible moves in tic-tac-toe

    while game.check_game_over().is_none() && move_count < MAX_MOVES {
        if game.current_player() == Player::Human {
            // Find first available empty position
            let empty_positions = game.board().empty_positions();
            if let Some((row, col)) = empty_positions.first() {
                if game.make_human_move(*row, *col).is_ok() {
                    move_count += 1;
                }
            } else {
                break; // No more moves available
            }
        } else {
            if game.make_ai_move().is_ok() {
                move_count += 1;
            } else {
                break; // AI can't move
            }
        }
    }

    // Game should end with either a result or a full board
    let result = game.check_game_over();
    assert!(result.is_some() || game.board().is_full());

    // With optimal AI play, human should never win
    if let Some(game_result) = result {
        assert!(game_result != GameResult::HumanWin);
    }
}

#[test]
fn test_refusals_come_in_order() {
    // Game over is reported before anything else.
    let mut board = Board::new();
    board.set(0, 0, Cell::O);
    board.set(1, 1, Cell::O);
    board.set(2, 2, Cell::O);
    let mut game = Game::new();
    game.board = board;
    game.current_player = Player::Ai;
    assert_eq!(game.make_human_move(5, 5), Err(GameError::GameOver));
    assert_eq!(game.make_ai_move(), Err(GameError::GameOver));
    assert_eq!(game.check_game_over(), Some(GameResult::AiWin));

    // The wrong player is reported before a bad square.
    let mut game = Game::new();
    game.make_human_move(1, 1).unwrap();
    assert_eq!(game.make_human_move(3, 0), Err(GameError::WrongPlayer));
    assert_eq!(game.make_human_move(1, 1), Err(GameError::WrongPlayer));

    // A square off the grid is reported before an occupied one can be.
    let mut game = Game::new();
    assert_eq!(game.make_human_move(0, 3), Err(GameError::InvalidPosition));
    assert_eq!(game.make_human_move(3, 0), Err(GameError::InvalidPosition));
    assert_eq!(game.make_ai_move(), Err(GameError::WrongPlayer));
}

#[test]
fn test_refused_moves_change_nothing() {
    let mut game = Game::new();
    game.make_human_move(0, 0).unwrap();
    game.make_ai_move().unwrap();
    let board = game.board().clone();
    assert_eq!(game.make_human_move(0, 0), Err(GameError::PositionOccupied));
    assert_eq!(game.make_human_move(9, 9), Err(GameError::InvalidPosition));
    assert_eq!(game.make_ai_move(), Err(GameError::WrongPlayer));
    assert_eq!(*game.board(), board);
    assert_eq!(game.current_player(), Player::Human);
}

#[test]
fn test_ai_move_plays_the_engines_choice() {
    let mut game = Game::new();
    game.make_human_move(0, 0).unwrap();
    let expected = game.ai_agent.get_best_move(game.board()).unwrap();
    assert_eq!(expected, (1, 1));
    game.make_ai_move().unwrap();
    assert_eq!(game.board().get(1, 1), Some(Cell::O));
    assert_eq!(game.board().empty_positions().len(), 7);
    assert_eq!(game.current_player(), Player::Human);
}

#[test]
fn test_turn_stays_with_the_player_who_ends_the_game() {
    let mut board = Board::new();
    board.set(0, 0, Cell::X);
    board.set(0, 1, Cell::X);
    board.set(1, 0, Cell::O);
    board.set(1, 1, Cell::O);
    let mut game = Game::new();
    game.board = board.clone();
    game.make_human_move(0, 2).unwrap();
    assert_eq!(game.check_game_over(), Some(GameResult::HumanWin));
    assert_eq!(game.current_player(), Player::Human);

    let mut game = Game::new();
    game.board = board;
    game.current_player = Player::Ai;
    game.make_ai_move().unwrap();
    assert_eq!(game.board().get(1, 2), Some(Cell::O));
    assert_eq!(game.check_game_over(), Some(GameResult::AiWin));
    assert_eq!(game.current_player(), Player::Ai);
}

#[test]
fn test_check_game_over_reports_draw() {
    let mut board = Board::new();
    let marks = [Cell::X, Cell::O, Cell::X, Cell::O, Cell::X, Cell::O, Cell::O, Cell::X, Cell::O];
    for (index, mark) in marks.iter().enumerate() {
        board.set(index / 3, index % 3, *mark);
    }
    let mut game = Game::default();
    assert_eq!(game.check_game_over(), None);
    game.board = board;
    assert_eq!(game.check_game_over(), Some(GameResult::Draw));
    assert_eq!(game.make_human_move(0, 0), Err(GameError::GameOver));
}

#[test]
fn test_game_error_to_string() {
    assert_eq!(GameError::InvalidPosition.to_string(), "Invalid position (must be 0-2)");
    assert_eq!(GameError::PositionOccupied.to_string(), "Position is already occupied");
    assert_eq!(GameError::GameOver.to_string(), "Game is already over");
    assert_eq!(GameError::WrongPlayer.to_string(), "Not your turn");
}

fn human_never_wins_game(game: &Game) {
    for (row, col) in game.board().empty_positions() {
        let mut next = Game::new();
        next.board = game.board().clone();
        next.make_human_move(row, col).unwrap();
        assert_ne!(next.check_game_over(), Some(GameResult::HumanWin));
        if next.check_game_over().is_none() {
            next.make_ai_move().unwrap();
            assert_ne!(next.check_game_over(), Some(GameResult::HumanWin));
        }
        if next.check_game_over().is_none() {
            assert_eq!(next.current_player(), Player::Human);
            human_never_wins_game(&next);
        }
    }
}

#[test]
fn test_no_line_of_play_beats_the_engine() {
    human_never_wins_game(&Game::new());
}
