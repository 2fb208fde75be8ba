use tic_tac_toe::{AiAgent, Board, Cell};

#[test]
fn test_ai_agent_creation() {
    let ai = AiAgent::new();
    let board = Board::new();
    assert!(ai.get_best_move(&board).is_some());
}

#[test]
fn test_ai_blocks_winning_move() {
    let mut board = Board::new();
    board.set(0, 0, Cell::X);
    board.set(0, 1, Cell::X);

    let ai = AiAgent::new();
    let best_move = ai.get_best_move(&board);
    assert_eq!(best_move, Some((0, 2)));
}

#[test]
fn test_ai_takes_winning_move() {
    let mut board = Board::new();
    board.set(1, 1, Cell::O);
    board.set(0, 0, Cell::O);
    board.set(2, 1, Cell::X);
    board.set(1, 0, Cell::X);

    let ai = AiAgent::new();
    let best_move = ai.get_best_move(&board);
    assert_eq!(best_move, Some((2, 2)));
}

#[test]
fn test_ai_prefers_center_on_empty_board() {
    let board = Board::new();
    let ai = AiAgent::new();
    let best_move = ai.get_best_move(&board);
    assert_eq!(best_move, Some((1, 1)));
}

#[test]
fn test_ai_no_moves_available() {
    let mut board = Board::new();
    // Fill the entire board
    board.set(0, 0, Cell::X);
    board.set(0, 1, Cell::O);
    board.set(0, 2, Cell::X);
    board.set(1, 0, Cell::O);
    board.set(1, 1, Cell::X);
    board.set(1, 2, Cell::O);
    board.set(2, 0, Cell::X);
    board.set(2, 1, Cell::O);
    board.set(2, 2, Cell::X);

    let ai = AiAgent::new();
    assert_eq!(ai.get_best_move(&board), None);
}

#[test]
fn test_strategic_move_selection() {
    // Test center preference
    let moves = vec![(0, 1), (1, 1), (2, 1)];
    assert_eq!(AiAgent::select_strategic_move(&moves), Some((1, 1)));

    // Test corner preference when no center
    let moves = vec![(0, 1), (0, 0), (2, 1)];
    assert_eq!(AiAgent::select_strategic_move(&moves), Some((0, 0)));

    // Test edge selection when no center or corners
    let moves = vec![(0, 1), (1, 0), (2, 1)];
    assert_eq!(AiAgent::select_strategic_move(&moves), Some((0, 1)));
}

#[test]
fn test_ai_fork_blocking() {
    let mut board = Board::new();
    // Set up a fork scenario where human has two ways to win
    // X in corners creates a fork
    board.set(0, 0, Cell::X); // Top-left corner
    board.set(2, 2, Cell::X); // Bottom-right corner
    board.set(1, 1, Cell::O); // AI has center

    let ai = AiAgent::new();
    let best_move = ai.get_best_move(&board);

    // AI should block one of the winning paths
    // Valid blocking moves: (0,2), (2,0), (0,1), (1,0), (1,2), (2,1)
    let blocking_moves = vec![(0, 2), (2, 0), (0, 1), (1, 0), (1, 2), (2, 1)];
    assert!(blocking_moves.contains(&best_move.unwrap()));
}

#[test]
fn test_ai_priorities_winning_over_blocking() {
    let mut board = Board::new();
    // Set up scenario where AI can win OR block human win
    board.set(0, 0, Cell::O); // AI
    board.set(0, 1, Cell::O); // AI (can win at 0,2)
    board.set(1, 0, Cell::X); // Human
    board.set(1, 1, Cell::X); // Human (can win at 1,2)

    let ai = AiAgent::new();
    let best_move = ai.get_best_move(&board);

    // AI should prioritize winning over blocking
    assert_eq!(best_move, Some((0, 2)));
}

#[test]
fn test_ai_corner_response() {
    let mut board = Board::new();
    // If human takes a corner, AI should take center
    board.set(0, 0, Cell::X);

    let ai = AiAgent::new();
    let best_move = ai.get_best_move(&board);
    assert_eq!(best_move, Some((1, 1)));

    // If center is taken, AI should take opposite corner
    let mut board = Board::new();
    board.set(0, 0, Cell::X); // Human takes corner
    board.set(1, 1, Cell::X); // Human takes center

    let ai = AiAgent::new();
    let best_move = ai.get_best_move(&board);
    // Should take opposite corner (2,2) or another strategic position
    let strategic_moves = vec![(2, 2), (0, 2), (2, 0)];
    assert!(strategic_moves.contains(&best_move.unwrap()));
}

fn grid(rows: [&str; 3]) -> Board {
    let mut board = Board::new();
    for (row, text) in rows.iter().enumerate() {
        for (col, letter) in text.chars().enumerate() {
            match letter {
                'X' => assert!(board.set(row, col, Cell::X)),
                'O' => assert!(board.set(row, col, Cell::O)),
                _ => {}
            }
        }
    }
    board
}

/// Plain minimax without pruning, to hold the engine's search against.
fn plain_minimax(board: &Board, depth: i32, maximizing: bool) -> i32 {
    match board.check_winner() {
        Some(Cell::O) => return 100 - depth,
        Some(Cell::X) => return depth - 100,
        _ => {}
    }
    if board.is_full() {
        return 0;
    }
    let mut best = if maximizing { i32::MIN } else { i32::MAX };
    for (row, col) in board.empty_positions() {
        let mut next = board.clone();
        next.set(row, col, if maximizing { Cell::O } else { Cell::X });
        let value = plain_minimax(&next, depth + 1, !maximizing);
        best = if maximizing { best.max(value) } else { best.min(value) };
    }
    best
}

fn positions_from(board: &Board, x_to_move: bool, found: &mut Vec<(Board, bool)>) {
    if found.iter().any(|(seen, turn)| seen == board && *turn == x_to_move) {
        return;
    }
    found.push((board.clone(), x_to_move));
    if board.is_game_over() {
        return;
    }
    for (row, col) in board.empty_positions() {
        let mut next = board.clone();
        next.set(row, col, if x_to_move { Cell::X } else { Cell::O });
        positions_from(&next, !x_to_move, found);
    }
}

#[test]
fn test_minimax_scores_terminal_positions() {
    let engine_won = grid(["OOO", "XX.", "X.."]);
    assert_eq!(AiAgent::minimax_alpha_beta(&engine_won, 0, false, i32::MIN, i32::MAX), 100);
    assert_eq!(AiAgent::minimax_alpha_beta(&engine_won, 3, true, i32::MIN, i32::MAX), 97);
    let human_won = grid(["XXX", "OO.", "..."]);
    assert_eq!(AiAgent::minimax_alpha_beta(&human_won, 0, true, i32::MIN, i32::MAX), -100);
    assert_eq!(AiAgent::minimax_alpha_beta(&human_won, 2, false, i32::MIN, i32::MAX), -98);
    let draw = grid(["XOX", "OXO", "OXO"]);
    assert_eq!(AiAgent::minimax_alpha_beta(&draw, 0, true, i32::MIN, i32::MAX), 0);
    assert_eq!(AiAgent::minimax_alpha_beta(&draw, 7, false, i32::MIN, i32::MAX), 0);
}

#[test]
fn test_minimax_prefers_fast_wins_and_slow_losses() {
    // The engine completes its row at once: one ply below depth 0.
    let board = grid(["OO.", "XX.", "..."]);
    assert_eq!(AiAgent::minimax_alpha_beta(&board, 0, true, i32::MIN, i32::MAX), 99);
    assert_eq!(AiAgent::minimax_alpha_beta(&board, 4, true, i32::MIN, i32::MAX), 95);
    // With the human to move the human completes its own row first.
    assert_eq!(AiAgent::minimax_alpha_beta(&board, 0, false, i32::MIN, i32::MAX), -99);
    // The human holds two open lines: the engine loses, but only two plies on.
    let fork = grid(["X.X", ".O.", "X.O"]);
    assert_eq!(AiAgent::minimax_alpha_beta(&fork, 0, true, i32::MIN, i32::MAX), -98);
    // The empty board is a draw.
    assert_eq!(AiAgent::minimax_alpha_beta(&Board::new(), 0, false, i32::MIN, i32::MAX), 0);
    assert_eq!(AiAgent::minimax_alpha_beta(&Board::new(), 0, true, i32::MIN, i32::MAX), 0);
}

#[test]
fn test_full_window_search_equals_plain_minimax() {
    let mut found = Vec::new();
    positions_from(&grid(["X..", ".O.", "..."]), true, &mut found);
    positions_from(&grid([".X.", "...", "..."]), false, &mut found);
    assert!(found.len() > 500);
    for (board, x_to_move) in found {
        let exact = plain_minimax(&board, 1, !x_to_move);
        assert_eq!(AiAgent::minimax_alpha_beta(&board, 1, !x_to_move, i32::MIN, i32::MAX), exact);
    }
}

#[test]
fn test_narrow_window_brackets_the_value() {
    let mut found = Vec::new();
    positions_from(&grid(["X.O", "...", ".X."]), false, &mut found);
    for (board, x_to_move) in found {
        let exact = plain_minimax(&board, 0, !x_to_move);
        for (alpha, beta) in [(-1, 1), (0, 1), (-1, 0), (90, 100), (-100, -95), (-200, 200)] {
            let score = AiAgent::minimax_alpha_beta(&board, 0, !x_to_move, alpha, beta);
            if score > alpha {
                assert!(score <= exact);
            }
            if score < beta {
                assert!(exact <= score);
            }
            if alpha < exact && exact < beta {
                assert_eq!(score, exact);
            }
        }
    }
}

#[test]
fn test_closed_window_stops_after_first_reply() {
    // With beta <= alpha on entry the scan still values the first reply, no more.
    let board = grid(["OO.", "XX.", "..."]);
    let mut first = board.clone();
    first.set(0, 2, Cell::X);
    let expected = AiAgent::minimax_alpha_beta(&first, 1, true, 5, 5);
    assert_eq!(AiAgent::minimax_alpha_beta(&board, 0, false, 5, 5), expected);
}

#[test]
fn test_best_move_is_an_empty_square_of_highest_value() {
    let mut found = Vec::new();
    positions_from(&grid(["X..", "...", "..."]), false, &mut found);
    let ai = AiAgent::new();
    for (board, x_to_move) in found {
        if x_to_move || board.is_full() {
            continue;
        }
        let (row, col) = ai.get_best_move(&board).unwrap();
        assert!(board.is_empty(row, col));
        let mut ties = Vec::new();
        let mut best = i32::MIN;
        for (r, c) in board.empty_positions() {
            let mut next = board.clone();
            next.set(r, c, Cell::O);
            let value = plain_minimax(&next, 0, false);
            if value > best {
                best = value;
                ties.clear();
            }
            if value == best {
                ties.push((r, c));
            }
        }
        assert_eq!(Some((row, col)), AiAgent::select_strategic_move(&ties));
    }
}

#[test]
fn test_best_move_is_deterministic() {
    let ai = AiAgent::new();
    let other = AiAgent::default();
    for rows in [["...", "...", "..."], ["X..", ".O.", "..X"], ["XO.", ".X.", "..."]] {
        let board = grid(rows);
        let copy = board.clone();
        let first = ai.get_best_move(&board);
        assert_eq!(ai.get_best_move(&board), first);
        assert_eq!(other.get_best_move(&copy), first);
        assert_eq!(board, copy);
    }
}

#[test]
fn test_best_move_on_won_board_with_room_left() {
    // Only a full board leaves the engine without a move. Here every square
    // is worth the same, so the first free corner is taken.
    let board = grid(["XXX", "OO.", "..."]);
    assert_eq!(AiAgent::new().get_best_move(&board), Some((2, 0)));
}

#[test]
fn test_best_move_on_last_square() {
    let board = grid(["XOX", "OXO", "OX."]);
    assert_eq!(AiAgent::new().get_best_move(&board), Some((2, 2)));
}

#[test]
fn test_opposite_corners_are_answered_on_an_edge() {
    let board = grid(["X..", ".O.", "..X"]);
    assert_eq!(AiAgent::new().get_best_move(&board), Some((0, 1)));
}

#[test]
fn test_strategic_move_of_nothing_is_none() {
    assert_eq!(AiAgent::select_strategic_move(&[]), None);
}

#[test]
fn test_strategic_move_corner_order() {
    assert_eq!(AiAgent::select_strategic_move(&[(2, 2), (2, 0), (0, 2), (0, 0)]), Some((0, 0)));
    assert_eq!(AiAgent::select_strategic_move(&[(2, 2), (2, 0), (0, 2)]), Some((0, 2)));
    assert_eq!(AiAgent::select_strategic_move(&[(1, 2), (2, 2), (2, 0)]), Some((2, 0)));
    assert_eq!(AiAgent::select_strategic_move(&[(1, 2), (2, 2)]), Some((2, 2)));
    assert_eq!(AiAgent::select_strategic_move(&[(2, 2), (1, 1)]), Some((1, 1)));
    assert_eq!(AiAgent::select_strategic_move(&[(2, 1), (1, 2)]), Some((2, 1)));
    assert_eq!(AiAgent::select_strategic_move(&[(7, 7)]), Some((7, 7)));
}

fn human_never_wins_from(board: &Board) {
    for (row, col) in board.empty_positions() {
        let mut next = board.clone();
        next.set(row, col, Cell::X);
        assert_ne!(next.check_winner(), Some(Cell::X));
        if next.is_game_over() {
            continue;
        }
        let (r, c) = AiAgent::new().get_best_move(&next).unwrap();
        assert!(next.set(r, c, Cell::O));
        if !next.is_game_over() {
            human_never_wins_from(&next);
        }
    }
}

#[test]
fn test_engine_is_never_beaten() {
    human_never_wins_from(&Board::new());
}
