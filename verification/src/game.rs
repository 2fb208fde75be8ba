//! The game: whose turn it is, which moves are accepted, and how it ends.

use crate::ai::{best_move_for, place, AiAgent};
use crate::board::{cell_index, game_over, grid_full, winner_of, Board, Cell, BOARD_SIZE};
use crate::unbeatable::{
    lemma_empty_board_secure, lemma_engine_move_keeps_secure, lemma_human_move_keeps_secure,
    lemma_secure_when_over, secure,
};
use vstd::prelude::*;

verus! {

/// The two players. The human plays `X` and moves first, the engine plays `O`.
#[derive(Debug, Clone, Copy, PartialEq, Eq, Structural)]
pub enum Player {
    Human,
    Ai,
}

/// How a finished game ended.
#[derive(Debug, Clone, Copy, PartialEq, Eq, Structural)]
pub enum GameResult {
    HumanWin,
    AiWin,
    Draw,
}

/// Why a move was refused.
#[derive(Debug, Clone, Copy, PartialEq, Eq, Structural)]
pub enum GameError {
    InvalidPosition,
    PositionOccupied,
    GameOver,
    WrongPlayer,
}

/// What a refusal says to the player.
pub open spec fn error_text(error: GameError) -> Seq<char> {
    match error {
        GameError::InvalidPosition => "Invalid position (must be 0-2)"@,
        GameError::PositionOccupied => "Position is already occupied"@,
        GameError::GameOver => "Game is already over"@,
        GameError::WrongPlayer => "Not your turn"@,
    }
}

impl GameError {
    /// The refusal in words.
    pub fn to_string(&self) -> (text: String)
        ensures
            text@ == error_text(*self),
    {
        match self {
            GameError::InvalidPosition => String::from_str("Invalid position (must be 0-2)"),
            GameError::PositionOccupied => String::from_str("Position is already occupied"),
            GameError::GameOver => String::from_str("Game is already over"),
            GameError::WrongPlayer => String::from_str("Not your turn"),
        }
    }
}

/// A game in progress: the board, the player to move, and the engine that
/// answers for `Player::Ai`.
pub struct Game {
    pub board: Board,
    pub current_player: Player,
    pub ai_agent: AiAgent,
}

/// The result that a grid shows: a win for the owner of the first complete
/// line, a draw on a full grid without one, `None` while play goes on.
pub open spec fn outcome_of(cells: Seq<Cell>) -> Option<GameResult> {
    match winner_of(cells) {
        Some(Cell::X) => Some(GameResult::HumanWin),
        Some(Cell::O) => Some(GameResult::AiWin),
        Some(Cell::Empty) => None,
        None => if grid_full(cells) {
            Some(GameResult::Draw)
        } else {
            None
        },
    }
}

/// Why the human's move to `(row, col)` is refused, if it is. The tests come
/// in this order: the game is over, it is not the human's turn, the square is
/// off the grid, the square is taken.
pub open spec fn human_move_refusal(
    cells: Seq<Cell>,
    turn: Player,
    row: usize,
    col: usize,
) -> Option<GameError> {
    if game_over(cells) {
        Some(GameError::GameOver)
    } else if turn != Player::Human {
        Some(GameError::WrongPlayer)
    } else if row >= 3 || col >= 3 {
        Some(GameError::InvalidPosition)
    } else if cells[cell_index(row as int, col as int)] != Cell::Empty {
        Some(GameError::PositionOccupied)
    } else {
        None
    }
}

/// Why the engine's move is refused, if it is: the game is over, or else it
/// is not the engine's turn.
pub open spec fn ai_move_refusal(cells: Seq<Cell>, turn: Player) -> Option<GameError> {
    if game_over(cells) {
        Some(GameError::GameOver)
    } else if turn != Player::Ai {
        Some(GameError::WrongPlayer)
    } else {
        None
    }
}

/// Who moves after `mover` has produced the grid `cells`: the other player,
/// unless that move ended the game.
pub open spec fn turn_after(cells: Seq<Cell>, mover: Player) -> Player {
    if game_over(cells) {
        mover
    } else {
        match mover {
            Player::Human => Player::Ai,
            Player::Ai => Player::Human,
        }
    }
}

impl Game {
    /// The human cannot win this game any more, if the engine goes on to make
    /// its moves: the position is secure for the engine.
    pub open spec fn engine_holds(&self) -> bool {
        secure(self.board@, self.current_player == Player::Ai)
    }

    /// A new game: an empty board, the human to move. The engine holds it.
    pub fn new() -> (game: Game)
        ensures
            game.board@ == Seq::new(9, |i: int| Cell::Empty),
            game.current_player == Player::Human,
            game.engine_holds(),
    {
        proof {
            lemma_empty_board_secure();
        }
        Game { board: Board::new(), current_player: Player::Human, ai_agent: AiAgent::new() }
    }

    /// The player to move.
    pub fn current_player(&self) -> (player: Player)
        ensures
            player == self.current_player,
    {
        self.current_player
    }

    /// The board.
    pub fn board(&self) -> (board: &Board)
        ensures
            *board == self.board,
    {
        &self.board
    }

    /// Puts the human's `X` on `(row, col)`. A refused move leaves the game as
    /// it was. A game that the engine holds it still holds afterwards.
    pub fn make_human_move(&mut self, row: usize, col: usize) -> (result: Result<(), GameError>)
        ensures
            old(self).engine_holds() ==> final(self).engine_holds(),
            match result {
                Ok(_) => {
                    &&& human_move_refusal(old(self).board@, old(self).current_player, row, col)
                        is None
                    &&& final(self).board@ == old(self).board@.update(
                        cell_index(row as int, col as int),
                        Cell::X,
                    )
                    &&& final(self).current_player == turn_after(
                        final(self).board@,
                        Player::Human,
                    )
                },
                Err(error) => {
                    &&& human_move_refusal(old(self).board@, old(self).current_player, row, col)
                        == Some(error)
                    &&& *final(self) == *old(self)
                },
            },
    {
        if self.board.is_game_over() {
            return Err(GameError::GameOver);
        }
        if self.current_player != Player::Human {
            return Err(GameError::WrongPlayer);
        }
        if row >= BOARD_SIZE || col >= BOARD_SIZE {
            return Err(GameError::InvalidPosition);
        }
        if !self.board.is_empty(row, col) {
            return Err(GameError::PositionOccupied);
        }
        proof {
            self.board.lemma_nine_cells();
            if self.engine_holds() {
                lemma_human_move_keeps_secure(self.board@, (row, col));
            }
        }
        self.board.set(row, col, Cell::X);
        proof {
            self.board.lemma_nine_cells();
            if game_over(self.board@) {
                lemma_secure_when_over(self.board@);
            }
        }
        if !self.board.is_game_over() {
            self.current_player = Player::Ai;
        }
        Ok(())
    }

    /// Puts the engine's `O` on the square that the engine picks. A refused
    /// move leaves the game as it was. A game that the engine holds it still
    /// holds afterwards.
    pub fn make_ai_move(&mut self) -> (result: Result<(), GameError>)
        ensures
            old(self).engine_holds() ==> final(self).engine_holds(),
            match result {
                Ok(_) => {
                    &&& ai_move_refusal(old(self).board@, old(self).current_player) is None
                    &&& best_move_for(old(self).board@) matches Some(square)
                    &&& final(self).board@ == place(old(self).board@, square, Cell::O)
                    &&& final(self).current_player == turn_after(final(self).board@, Player::Ai)
                },
                Err(error) => {
                    &&& ai_move_refusal(old(self).board@, old(self).current_player) == Some(
                        error,
                    )
                    &&& *final(self) == *old(self)
                },
            },
    {
        if self.board.is_game_over() {
            return Err(GameError::GameOver);
        }
        if self.current_player != Player::Ai {
            return Err(GameError::WrongPlayer);
        }
        proof {
            self.board.lemma_nine_cells();
            if self.engine_holds() {
                lemma_engine_move_keeps_secure(self.board@);
            }
        }
        if let Some((row, col)) = self.ai_agent.get_best_move(&self.board) {
            self.board.set(row, col, Cell::O);
            proof {
                self.board.lemma_nine_cells();
                if game_over(self.board@) {
                    lemma_secure_when_over(self.board@);
                }
            }
            if !self.board.is_game_over() {
                self.current_player = Player::Human;
            }
            Ok(())
        } else {
            Err(GameError::GameOver)
        }
    }

    /// The result, once the game has ended. Where the engine holds the game
    /// it is not a win for the human.
    pub fn check_game_over(&self) -> (result: Option<GameResult>)
        ensures
            result == outcome_of(self.board@),
            self.engine_holds() ==> result != Some(GameResult::HumanWin),
    {
        if let Some(winner) = self.board.check_winner() {
            match winner {
                Cell::X => Some(GameResult::HumanWin),
                Cell::O => Some(GameResult::AiWin),
                Cell::Empty => None,
            }
        } else if self.board.is_full() {
            Some(GameResult::Draw)
        } else {
            None
        }
    }

    /// Starts over: an empty board, the human to move. The engine holds the
    /// game.
    pub fn reset(&mut self)
        ensures
            final(self).board@ == Seq::new(9, |i: int| Cell::Empty),
            final(self).current_player == Player::Human,
            final(self).engine_holds(),
    {
        proof {
            lemma_empty_board_secure();
        }
        self.board = Board::new();
        self.current_player = Player::Human;
    }
}

impl Default for Game {
    fn default() -> (game: Game)
        ensures
            game.board@ == Seq::new(9, |i: int| Cell::Empty),
            game.current_player == Player::Human,
            game.engine_holds(),
    {
        Game::new()
    }
}

} // verus!
