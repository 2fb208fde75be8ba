//! The engine: exhaustive game-tree search with alpha-beta pruning, and the
//! positional rule that settles ties between equally good squares.

use crate::board::{
    cell_index, count_empty, empty_cells, grid_full, lemma_empty_cells, winner_of, Board, Cell,
};
use vstd::prelude::*;

verus! {

/// The mark of the side to move: the engine maximises with `O`, its opponent
/// minimises with `X`.
pub open spec fn mover(maximizing: bool) -> Cell {
    if maximizing {
        Cell::O
    } else {
        Cell::X
    }
}

/// `square` is an empty square of a nine-cell grid.
pub open spec fn playable(cells: Seq<Cell>, square: (usize, usize)) -> bool {
    &&& cells.len() == 9
    &&& square.0 < 3
    &&& square.1 < 3
    &&& cells[cell_index(square.0 as int, square.1 as int)] == Cell::Empty
}

/// The grid after `mark` has been put on `square`.
pub open spec fn place(cells: Seq<Cell>, square: (usize, usize), mark: Cell) -> Seq<Cell> {
    cells.update(cell_index(square.0 as int, square.1 as int), mark)
}

/// The better of two values for the side to move.
pub open spec fn prefer(maximizing: bool, a: int, b: int) -> int {
    if maximizing {
        if a >= b {
            a
        } else {
            b
        }
    } else {
        if a <= b {
            a
        } else {
            b
        }
    }
}

/// The value of a position under best play by both sides, seen from the
/// engine: `100 - depth` where the engine has won, `depth - 100` where its
/// opponent has, `0` for a full board without a winner, and otherwise the
/// best value, for the side to move, among the positions one ply further.
pub open spec fn minimax(cells: Seq<Cell>, depth: int, maximizing: bool) -> int
    decreases count_empty(cells), 1int, 0nat,
{
    match winner_of(cells) {
        Some(Cell::O) => 100 - depth,
        Some(Cell::X) => depth - 100,
        Some(Cell::Empty) => 0,
        None => match best_among(cells, depth + 1, maximizing, empty_cells(cells)) {
            Some(value) => value,
            None => 0,
        },
    }
}

/// The best value that the side to move reaches by marking one of the
/// playable squares of `moves`, each resulting position valued at `depth`
/// with the other side to move; `None` when `moves` holds no playable square.
pub open spec fn best_among(
    cells: Seq<Cell>,
    depth: int,
    maximizing: bool,
    moves: Seq<(usize, usize)>,
) -> Option<int>
    decreases count_empty(cells), 0int, moves.len(),
{
    if moves.len() == 0 {
        None
    } else {
        let rest = best_among(cells, depth, maximizing, moves.drop_first());
        if playable(cells, moves[0]) {
            let here = minimax(place(cells, moves[0], mover(maximizing)), depth, !maximizing);
            match rest {
                Some(other) => Some(prefer(maximizing, here, other)),
                None => Some(here),
            }
        } else {
            rest
        }
    }
}

/// The value that the pruned search reports for a position and a window
/// `(alpha, beta)`. It differs from `minimax` in that a scan of the replies
/// stops as soon as the window has closed, so the number is a bound on the
/// true value where it falls outside the window (see
/// `lemma_pruned_value_bounds_minimax`).
pub open spec fn pruned_value(
    cells: Seq<Cell>,
    depth: int,
    maximizing: bool,
    alpha: int,
    beta: int,
) -> int
    decreases count_empty(cells), 1int, 0nat,
{
    match winner_of(cells) {
        Some(Cell::O) => 100 - depth,
        Some(Cell::X) => depth - 100,
        Some(Cell::Empty) => 0,
        None => if grid_full(cells) {
            0
        } else {
            pruned_scan(
                cells,
                depth + 1,
                maximizing,
                alpha,
                beta,
                if maximizing {
                    i32::MIN as int
                } else {
                    i32::MAX as int
                },
                empty_cells(cells),
            )
        },
    }
}

/// The scan of the replies `moves`, first to last, that the pruned search
/// makes with `best` in hand: each reply is valued within the current window;
/// the maximiser raises `best` and `alpha` to that value, the minimiser lowers
/// `best` and `beta`; the scan ends after the reply that makes
/// `beta <= alpha`, or with the last one.
pub open spec fn pruned_scan(
    cells: Seq<Cell>,
    depth: int,
    maximizing: bool,
    alpha: int,
    beta: int,
    best: int,
    moves: Seq<(usize, usize)>,
) -> int
    decreases count_empty(cells), 0int, moves.len(),
{
    if moves.len() == 0 {
        best
    } else if !playable(cells, moves[0]) {
        pruned_scan(cells, depth, maximizing, alpha, beta, best, moves.drop_first())
    } else {
        let score = pruned_value(
            place(cells, moves[0], mover(maximizing)),
            depth,
            !maximizing,
            alpha,
            beta,
        );
        let best = prefer(maximizing, best, score);
        let alpha = if maximizing {
            prefer(true, alpha, score)
        } else {
            alpha
        };
        let beta = if maximizing {
            beta
        } else {
            prefer(false, beta, score)
        };
        if beta <= alpha {
            best
        } else {
            pruned_scan(cells, depth, maximizing, alpha, beta, best, moves.drop_first())
        }
    }
}

/// What a value reported for the window `(alpha, beta)` tells about the
/// `exact` one: above `alpha` it is a lower bound, below `beta` an upper
/// bound, and strictly inside the window it is therefore exact.
pub open spec fn brackets(score: int, exact: int, alpha: int, beta: int) -> bool {
    &&& alpha < score ==> score <= exact
    &&& score < beta ==> exact <= score
}

/// The value, for the engine, of answering on `square`: the minimax value of
/// the resulting position, counted from depth 0, with the opponent to move.
pub open spec fn reply_value(cells: Seq<Cell>, square: (usize, usize)) -> int {
    minimax(place(cells, square, Cell::O), 0, false)
}

/// The highest `reply_value` among the empty squares; `None` on a full board.
pub open spec fn best_reply_value(cells: Seq<Cell>) -> Option<int> {
    best_among(cells, 0, true, empty_cells(cells))
}

/// The test "answering on this square is worth `value`".
pub open spec fn scores(cells: Seq<Cell>, value: int) -> spec_fn((usize, usize)) -> bool {
    |square: (usize, usize)| reply_value(cells, square) == value
}

/// The empty squares whose `reply_value` is the highest, in row-major order.
pub open spec fn best_moves(cells: Seq<Cell>) -> Seq<(usize, usize)> {
    match best_reply_value(cells) {
        Some(value) => empty_cells(cells).filter(scores(cells, value)),
        None => Seq::empty(),
    }
}

/// The engine's answer to a position: the tie-break's pick among the best
/// empty squares, `None` when no square is empty.
pub open spec fn best_move_for(cells: Seq<Cell>) -> Option<(usize, usize)> {
    strategic_choice(best_moves(cells))
}

/// The square that the tie-break picks from `moves`: the centre if it is
/// there, else the first of the corners `(0,0)`, `(0,2)`, `(2,0)`, `(2,2)` that
/// is there, else the first entry; `None` for an empty sequence.
pub open spec fn strategic_choice(moves: Seq<(usize, usize)>) -> Option<(usize, usize)> {
    if moves.len() == 0 {
        None
    } else if moves.contains((1usize, 1usize)) {
        Some((1usize, 1usize))
    } else if moves.contains((0usize, 0usize)) {
        Some((0usize, 0usize))
    } else if moves.contains((0usize, 2usize)) {
        Some((0usize, 2usize))
    } else if moves.contains((2usize, 0usize)) {
        Some((2usize, 0usize))
    } else if moves.contains((2usize, 2usize)) {
        Some((2usize, 2usize))
    } else {
        Some(moves[0])
    }
}

/// The engine. It holds no state: every answer depends on the board alone.
pub struct AiAgent;

impl AiAgent {
    /// A new engine.
    pub fn new() -> (agent: AiAgent) {
        AiAgent
    }

    /// The engine's move on `board`: among the empty squares whose resulting
    /// position has the highest minimax value, the one that the tie-break
    /// prefers. `None` exactly when the board has no empty square.
    pub fn get_best_move(&self, board: &Board) -> (best: Option<(usize, usize)>)
        ensures
            best == best_move_for(board@),
            best is None <==> grid_full(board@),
            best matches Some(square) ==> playable(board@, square),
    {
        proof {
            board.lemma_nine_cells();
            lemma_empty_cells(board@);
            lemma_best_move_for(board@);
        }
        let empty_positions = board.empty_positions();
        if empty_positions.len() == 0 {
            return None;
        }
        let mut best_score = i32::MIN;
        let mut best_moves: Vec<(usize, usize)> = Vec::new();
        let mut i: usize = 0;
        assert(empty_positions@.take(0) == Seq::<(usize, usize)>::empty());
        while i < empty_positions.len()
            invariant
                i <= empty_positions.len(),
                empty_positions@ == empty_cells(board@),
                board@.len() == 9,
                forall|k: int|
                    0 <= k < empty_positions@.len() ==> playable(
                        board@,
                        #[trigger] empty_positions@[k],
                    ),
                i == 0 ==> best_score == i32::MIN,
                best_among(board@, 0, true, empty_positions@.take(i as int)) == if i == 0 {
                    None
                } else {
                    Some(best_score as int)
                },
                best_moves@ == empty_positions@.take(i as int).filter(
                    scores(board@, best_score as int),
                ),
            decreases empty_positions.len() - i,
        {
            let (row, col) = empty_positions[i];
            let mut board_copy = board.clone();
            board_copy.set(row, col, Cell::O);
            let ghost seen = empty_positions@.take(i as int);
            let ghost square = empty_positions@[i as int];
            proof {
                assert(playable(board@, square));
                assert(board_copy@ == place(board@, square, Cell::O));
                lemma_place_fills(board@, square, Cell::O);
                lemma_full_window_is_exact(board_copy@, 0, false);
                lemma_minimax_range(board_copy@, 0, false);
                assert(empty_positions@.take(i + 1) == seen.push(square));
                lemma_best_among_push(board@, 0, true, seen, square);
            }
            let score = Self::minimax_alpha_beta(&board_copy, 0, false, i32::MIN, i32::MAX);
            assert(score == reply_value(board@, square));
            if score > best_score {
                proof {
                    lemma_none_scores_above(board@, seen, score as int);
                }
                best_score = score;
                best_moves.clear();
                best_moves.push((row, col));
            } else if score == best_score {
                best_moves.push((row, col));
            }
            proof {
                reveal(Seq::filter);
                assert(seen.push(square).drop_last() == seen);
            }
            i += 1;
        }
        assert(empty_positions@.take(i as int) == empty_positions@);
        Self::select_strategic_move(&best_moves)
    }

    /// Whether `square` occurs in `moves`.
    fn contains_move(moves: &[(usize, usize)], square: (usize, usize)) -> (found: bool)
        ensures
            found == moves@.contains(square),
    {
        let mut i: usize = 0;
        while i < moves.len()
            invariant
                i <= moves.len(),
                forall|k: int| 0 <= k < i ==> moves@[k] != square,
            decreases moves.len() - i,
        {
            let (row, col) = moves[i];
            if row == square.0 && col == square.1 {
                return true;
            }
            i += 1;
        }
        false
    }

    /// Settles a tie: centre before corners before the rest.
    pub fn select_strategic_move(moves: &[(usize, usize)]) -> (chosen: Option<(usize, usize)>)
        ensures
            chosen == strategic_choice(moves@),
    {
        if moves.len() == 0 {
            return None;
        }
        if Self::contains_move(moves, (1, 1)) {
            return Some((1, 1));
        }
        let corners: [(usize, usize); 4] = [(0, 0), (0, 2), (2, 0), (2, 2)];
        let mut i: usize = 0;
        while i < 4
            invariant
                i <= 4,
                moves@.len() > 0,
                !moves@.contains((1usize, 1usize)),
                corners@ == seq![
                    (0usize, 0usize),
                    (0usize, 2usize),
                    (2usize, 0usize),
                    (2usize, 2usize),
                ],
                forall|k: int| 0 <= k < i ==> !moves@.contains(corners@[k]),
            decreases 4 - i,
        {
            let corner = corners[i];
            if Self::contains_move(moves, corner) {
                return Some(corner);
            }
            i += 1;
        }
        assert(!moves@.contains(corners@[0]) && !moves@.contains(corners@[1])
            && !moves@.contains(corners@[2]) && !moves@.contains(corners@[3]));
        Some(moves[0])
    }

    /// Values `board` at `depth` plies below the move under evaluation, with
    /// the engine to move if `is_maximizing`, by minimax search with
    /// alpha-beta pruning inside the window `(alpha, beta)`.
    pub fn minimax_alpha_beta(
        board: &Board,
        depth: usize,
        is_maximizing: bool,
        alpha: i32,
        beta: i32,
    ) -> (score: i32)
        requires
            depth + count_empty(board@) <= i32::MAX,
        ensures
            score == pruned_value(board@, depth as int, is_maximizing, alpha as int, beta as int),
            alpha < beta ==> brackets(
                score as int,
                minimax(board@, depth as int, is_maximizing),
                alpha as int,
                beta as int,
            ),
        decreases count_empty(board@),
    {
        proof {
            board.lemma_nine_cells();
            lemma_empty_cells(board@);
            if alpha < beta {
                lemma_pruned_value_bounds_minimax(
                    board@,
                    depth as int,
                    is_maximizing,
                    alpha as int,
                    beta as int,
                );
            }
        }
        if let Some(winner) = board.check_winner() {
            return match winner {
                Cell::O => 100 - depth as i32,
                Cell::X => depth as i32 - 100,
                Cell::Empty => 0,
            };
        }
        if board.is_full() {
            return 0;
        }
        let moves = board.empty_positions();
        let mut alpha = alpha;
        let mut beta = beta;
        let mut best: i32 = if is_maximizing {
            i32::MIN
        } else {
            i32::MAX
        };
        let ghost total = pruned_scan(
            board@,
            depth + 1,
            is_maximizing,
            alpha as int,
            beta as int,
            best as int,
            moves@,
        );
        let mut i: usize = 0;
        assert(moves@.skip(0) == moves@);
        while i < moves.len()
            invariant_except_break
                i <= moves.len(),
                moves@ == empty_cells(board@),
                board@.len() == 9,
                depth + count_empty(board@) <= i32::MAX,
                forall|k: int| 0 <= k < moves@.len() ==> playable(board@, #[trigger] moves@[k]),
                pruned_scan(
                    board@,
                    depth + 1,
                    is_maximizing,
                    alpha as int,
                    beta as int,
                    best as int,
                    moves@.skip(i as int),
                ) == total,
            ensures
                best == total,
            decreases moves.len() - i,
        {
            let (row, col) = moves[i];
            let mut board_copy = board.clone();
            if is_maximizing {
                board_copy.set(row, col, Cell::O);
            } else {
                board_copy.set(row, col, Cell::X);
            }
            let ghost rest = moves@.skip(i as int);
            proof {
                assert(rest[0] == moves@[i as int]);
                assert(rest.drop_first() == moves@.skip(i + 1));
                assert(playable(board@, rest[0]));
                assert(board_copy@ == place(board@, rest[0], mover(is_maximizing)));
                lemma_place_fills(board@, rest[0], mover(is_maximizing));
            }
            let score = Self::minimax_alpha_beta(
                &board_copy,
                depth + 1,
                !is_maximizing,
                alpha,
                beta,
            );
            if is_maximizing {
                if score > best {
                    best = score;
                }
                if score > alpha {
                    alpha = score;
                }
            } else {
                if score < best {
                    best = score;
                }
                if score < beta {
                    beta = score;
                }
            }
            assert(total == if beta <= alpha {
                best as int
            } else {
                pruned_scan(
                    board@,
                    depth + 1,
                    is_maximizing,
                    alpha as int,
                    beta as int,
                    best as int,
                    rest.drop_first(),
                )
            });
            if beta <= alpha {
                break ;
            }
            i += 1;
        }
        best
    }
}

/// Marking a playable square leaves a nine-cell grid with one empty cell
/// fewer.
pub proof fn lemma_place_fills(cells: Seq<Cell>, square: (usize, usize), mark: Cell)
    requires
        playable(cells, square),
        mark != Cell::Empty,
    ensures
        place(cells, square, mark).len() == 9,
        count_empty(place(cells, square, mark)) == count_empty(cells) - 1,
{
}

/// Alpha-beta pruning is sound: for a window with `alpha < beta`, what the
/// pruned search reports brackets the minimax value.
pub proof fn lemma_pruned_value_bounds_minimax(
    cells: Seq<Cell>,
    depth: int,
    maximizing: bool,
    alpha: int,
    beta: int,
)
    requires
        cells.len() == 9,
        i32::MIN <= alpha < beta <= i32::MAX,
    ensures
        brackets(
            pruned_value(cells, depth, maximizing, alpha, beta),
            minimax(cells, depth, maximizing),
            alpha,
            beta,
        ),
    decreases count_empty(cells), 1int, 0nat,
{
    if winner_of(cells) is None {
        lemma_empty_cells(cells);
        if !grid_full(cells) {
            let start = if maximizing {
                i32::MIN as int
            } else {
                i32::MAX as int
            };
            lemma_pruned_scan_bounds_best(
                cells,
                depth + 1,
                maximizing,
                alpha,
                beta,
                start,
                empty_cells(cells),
            );
            lemma_best_among_some(cells, depth + 1, maximizing, empty_cells(cells));
        }
    }
}

/// `best_among` is `Some` exactly when `moves` holds a playable square.
pub proof fn lemma_best_among_some(
    cells: Seq<Cell>,
    depth: int,
    maximizing: bool,
    moves: Seq<(usize, usize)>,
)
    ensures
        best_among(cells, depth, maximizing, moves) is Some <==> exists|k: int|
            0 <= k < moves.len() && playable(cells, #[trigger] moves[k]),
    decreases moves.len(),
{
    if moves.len() > 0 {
        let rest = moves.drop_first();
        lemma_best_among_some(cells, depth, maximizing, rest);
        if best_among(cells, depth, maximizing, moves) is Some {
            if playable(cells, moves[0]) {
            } else {
                let k = choose|k: int| 0 <= k < rest.len() && playable(cells, #[trigger] rest[k]);
                assert(playable(cells, moves[k + 1]));
            }
        }
        if exists|k: int| 0 <= k < moves.len() && playable(cells, #[trigger] moves[k]) {
            let k = choose|k: int| 0 <= k < moves.len() && playable(cells, #[trigger] moves[k]);
            if k > 0 {
                assert(playable(cells, rest[k - 1]));
            }
        }
    }
}

/// The scan of one node, for a window that is still open and a `best` that
/// has not yet entered it: the outcome brackets the best value among `moves`.
proof fn lemma_pruned_scan_bounds_best(
    cells: Seq<Cell>,
    depth: int,
    maximizing: bool,
    alpha: int,
    beta: int,
    best: int,
    moves: Seq<(usize, usize)>,
)
    requires
        cells.len() == 9,
        i32::MIN <= alpha < beta <= i32::MAX,
        maximizing ==> best <= alpha,
        !maximizing ==> beta <= best,
    ensures
        ({
            let outcome = pruned_scan(cells, depth, maximizing, alpha, beta, best, moves);
            let exact = best_among(cells, depth, maximizing, moves);
            if maximizing {
                &&& best <= outcome
                &&& alpha < outcome ==> exact is Some && outcome <= exact->0
                &&& outcome < beta && exact is Some ==> exact->0 <= outcome
            } else {
                &&& outcome <= best
                &&& outcome < beta ==> exact is Some && exact->0 <= outcome
                &&& alpha < outcome && exact is Some ==> outcome <= exact->0
            }
        }),
    decreases count_empty(cells), 0int, moves.len(),
{
    if moves.len() > 0 {
        let rest = moves.drop_first();
        if !playable(cells, moves[0]) {
            lemma_pruned_scan_bounds_best(cells, depth, maximizing, alpha, beta, best, rest);
        } else {
            let child = place(cells, moves[0], mover(maximizing));
            lemma_place_fills(cells, moves[0], mover(maximizing));
            lemma_pruned_value_bounds_minimax(child, depth, !maximizing, alpha, beta);
            let score = pruned_value(child, depth, !maximizing, alpha, beta);
            let best1 = prefer(maximizing, best, score);
            let alpha1 = if maximizing {
                prefer(true, alpha, score)
            } else {
                alpha
            };
            let beta1 = if maximizing {
                beta
            } else {
                prefer(false, beta, score)
            };
            if alpha1 < beta1 {
                lemma_pruned_scan_bounds_best(cells, depth, maximizing, alpha1, beta1, best1, rest);
            }
        }
    }
}

/// What a position can be worth at `depth` when at most `plies` plies are
/// left to play: nothing, or a loss or a win at one of the depths from `depth`
/// to `depth + plies`.
pub open spec fn possible_value(value: int, depth: int, plies: int) -> bool {
    ||| value == 0
    ||| depth - 100 <= value <= depth + plies - 100
    ||| 100 - depth - plies <= value <= 100 - depth
}

/// The minimax value is a draw, or a win or a loss at a depth that the empty
/// cells allow.
pub proof fn lemma_minimax_range(cells: Seq<Cell>, depth: int, maximizing: bool)
    requires
        cells.len() == 9,
    ensures
        possible_value(minimax(cells, depth, maximizing), depth, count_empty(cells) as int),
    decreases count_empty(cells), 1int, 0nat,
{
    if winner_of(cells) is None {
        lemma_best_among_range(cells, depth + 1, maximizing, empty_cells(cells));
    }
}

/// The range of `lemma_minimax_range`, for the best among some replies.
proof fn lemma_best_among_range(
    cells: Seq<Cell>,
    depth: int,
    maximizing: bool,
    moves: Seq<(usize, usize)>,
)
    requires
        cells.len() == 9,
    ensures
        best_among(cells, depth, maximizing, moves) matches Some(value) ==> possible_value(
            value,
            depth,
            count_empty(cells) - 1,
        ),
    decreases count_empty(cells), 0int, moves.len(),
{
    if moves.len() > 0 {
        lemma_best_among_range(cells, depth, maximizing, moves.drop_first());
        if playable(cells, moves[0]) {
            lemma_place_fills(cells, moves[0], mover(maximizing));
            lemma_minimax_range(place(cells, moves[0], mover(maximizing)), depth, !maximizing);
        }
    }
}

/// With the widest window nothing is pruned away: the pruned search reports
/// the minimax value itself.
pub proof fn lemma_full_window_is_exact(cells: Seq<Cell>, depth: int, maximizing: bool)
    requires
        cells.len() == 9,
        0 <= depth,
        depth + count_empty(cells) <= i32::MAX,
    ensures
        pruned_value(cells, depth, maximizing, i32::MIN as int, i32::MAX as int) == minimax(
            cells,
            depth,
            maximizing,
        ),
{
    lemma_minimax_range(cells, depth, maximizing);
    lemma_pruned_value_bounds_minimax(cells, depth, maximizing, i32::MIN as int, i32::MAX as int);
}

/// Adding a playable square at the end of `moves` combines its value with the
/// best among `moves`.
proof fn lemma_best_among_push(
    cells: Seq<Cell>,
    depth: int,
    maximizing: bool,
    moves: Seq<(usize, usize)>,
    square: (usize, usize),
)
    requires
        playable(cells, square),
    ensures
        best_among(cells, depth, maximizing, moves.push(square)) == Some(
            match best_among(cells, depth, maximizing, moves) {
                Some(value) => prefer(
                    maximizing,
                    value,
                    minimax(place(cells, square, mover(maximizing)), depth, !maximizing),
                ),
                None => minimax(place(cells, square, mover(maximizing)), depth, !maximizing),
            },
        ),
    decreases moves.len(),
{
    let longer = moves.push(square);
    if moves.len() == 0 {
        assert(longer[0] == square);
        assert(longer.drop_first() == moves);
    } else {
        assert(longer[0] == moves[0]);
        assert(longer.drop_first() == moves.drop_first().push(square));
        lemma_best_among_push(cells, depth, maximizing, moves.drop_first(), square);
    }
}

/// `best_among` is the extremum: no playable square of `moves` does better
/// for the side to move, and some playable square does exactly as well.
pub proof fn lemma_best_among_extremum(
    cells: Seq<Cell>,
    depth: int,
    maximizing: bool,
    moves: Seq<(usize, usize)>,
)
    ensures
        best_among(cells, depth, maximizing, moves) matches Some(value) ==> {
            &&& forall|k: int|
                0 <= k < moves.len() && playable(cells, #[trigger] moves[k]) ==> prefer(
                    maximizing,
                    value,
                    minimax(place(cells, moves[k], mover(maximizing)), depth, !maximizing),
                ) == value
            &&& exists|k: int|
                0 <= k < moves.len() && playable(cells, #[trigger] moves[k]) && minimax(
                    place(cells, moves[k], mover(maximizing)),
                    depth,
                    !maximizing,
                ) == value
        },
    decreases moves.len(),
{
    if moves.len() > 0 {
        let rest = moves.drop_first();
        lemma_best_among_extremum(cells, depth, maximizing, rest);
        lemma_best_among_some(cells, depth, maximizing, rest);
        if let Some(value) = best_among(cells, depth, maximizing, moves) {
            assert forall|k: int|
                0 <= k < moves.len() && playable(cells, #[trigger] moves[k]) implies prefer(
                maximizing,
                value,
                minimax(place(cells, moves[k], mover(maximizing)), depth, !maximizing),
            ) == value by {
                if k > 0 {
                    assert(moves[k] == rest[k - 1]);
                }
            }
            let here = minimax(place(cells, moves[0], mover(maximizing)), depth, !maximizing);
            if playable(cells, moves[0]) && here == value {
                assert(playable(cells, moves[0]));
            } else {
                let k = choose|k: int|
                    0 <= k < rest.len() && playable(cells, #[trigger] rest[k]) && minimax(
                        place(cells, rest[k], mover(maximizing)),
                        depth,
                        !maximizing,
                    ) == value;
                assert(moves[k + 1] == rest[k]);
            }
        }
    }
}

/// What `minimax` is while play goes on: the value of the best reply. No
/// empty square leads to a position that is better for the side to move, and
/// some empty square leads to one that is worth exactly as much.
pub proof fn lemma_minimax_is_best_reply(cells: Seq<Cell>, depth: int, maximizing: bool)
    requires
        cells.len() == 9,
        winner_of(cells) is None,
        !grid_full(cells),
    ensures
        forall|square: (usize, usize)|
            playable(cells, square) ==> prefer(
                maximizing,
                minimax(cells, depth, maximizing),
                minimax(#[trigger] place(cells, square, mover(maximizing)), depth + 1, !maximizing),
            ) == minimax(cells, depth, maximizing),
        exists|square: (usize, usize)|
            playable(cells, square) && minimax(
                #[trigger] place(cells, square, mover(maximizing)),
                depth + 1,
                !maximizing,
            ) == minimax(cells, depth, maximizing),
{
    let moves = empty_cells(cells);
    lemma_empty_cells(cells);
    lemma_best_among_some(cells, depth + 1, maximizing, moves);
    lemma_best_among_extremum(cells, depth + 1, maximizing, moves);
    assert(playable(cells, moves[0]));
    assert forall|square: (usize, usize)| playable(cells, square) implies prefer(
        maximizing,
        minimax(cells, depth, maximizing),
        minimax(#[trigger] place(cells, square, mover(maximizing)), depth + 1, !maximizing),
    ) == minimax(cells, depth, maximizing) by {
        assert(moves.contains(square));
        let k = choose|k: int| 0 <= k < moves.len() && moves[k] == square;
        assert(playable(cells, moves[k]));
    }
}

/// No square of `moves` is worth `value` when the best among them is worth
/// less.
proof fn lemma_none_scores_above(cells: Seq<Cell>, moves: Seq<(usize, usize)>, value: int)
    requires
        forall|k: int| 0 <= k < moves.len() ==> playable(cells, #[trigger] moves[k]),
        best_among(cells, 0, true, moves) matches Some(best) ==> best < value,
    ensures
        moves.filter(scores(cells, value)) == Seq::<(usize, usize)>::empty(),
{
    let kept = moves.filter(scores(cells, value));
    if kept.len() > 0 {
        moves.lemma_filter_pred(scores(cells, value), 0);
        assert(kept.contains(kept[0]));
        moves.lemma_filter_contains_rev(scores(cells, value), kept[0]);
        let k = choose|k: int| 0 <= k < moves.len() && moves[k] == kept[0];
        lemma_best_among_some(cells, 0, true, moves);
        lemma_best_among_extremum(cells, 0, true, moves);
        assert(playable(cells, moves[k]));
    }
}

/// The tie-break picks a square of `moves`, and picks one unless `moves` is
/// empty.
pub proof fn lemma_strategic_choice_member(moves: Seq<(usize, usize)>)
    ensures
        strategic_choice(moves) is None <==> moves.len() == 0,
        strategic_choice(moves) matches Some(square) ==> moves.contains(square),
{
    if moves.len() > 0 {
        assert(moves.contains(moves[0]));
    }
}

/// The engine's answer is legal and optimal: it is `None` exactly on a full
/// board, and otherwise an empty square whose `reply_value` no other empty
/// square exceeds.
pub proof fn lemma_best_move_for(cells: Seq<Cell>)
    requires
        cells.len() == 9,
    ensures
        best_move_for(cells) is None <==> grid_full(cells),
        best_move_for(cells) matches Some(square) ==> {
            &&& playable(cells, square)
            &&& best_reply_value(cells) == Some(reply_value(cells, square))
            &&& forall|other: (usize, usize)|
                playable(cells, other) ==> #[trigger] reply_value(cells, other) <= reply_value(
                    cells,
                    square,
                )
        },
{
    let moves = empty_cells(cells);
    lemma_empty_cells(cells);
    lemma_best_among_some(cells, 0, true, moves);
    lemma_best_among_extremum(cells, 0, true, moves);
    lemma_strategic_choice_member(best_moves(cells));
    if let Some(value) = best_reply_value(cells) {
        let k = choose|k: int|
            0 <= k < moves.len() && playable(cells, #[trigger] moves[k]) && reply_value(
                cells,
                moves[k],
            ) == value;
        moves.lemma_filter_contains(scores(cells, value), k);
        if let Some(square) = best_move_for(cells) {
            let kept = best_moves(cells);
            let j = choose|j: int| 0 <= j < kept.len() && kept[j] == square;
            moves.lemma_filter_pred(scores(cells, value), j);
            moves.lemma_filter_contains_rev(scores(cells, value), square);
            assert forall|other: (usize, usize)|
                playable(cells, other) implies #[trigger] reply_value(cells, other) <= reply_value(
                cells,
                square,
            ) by {
                assert(moves.contains(other));
                let m = choose|m: int| 0 <= m < moves.len() && moves[m] == other;
                assert(playable(cells, moves[m]));
            }
        }
    } else {
        if moves.len() > 0 {
            assert(playable(cells, moves[0]));
        }
    }
}

impl Default for AiAgent {
    fn default() -> (agent: AiAgent) {
        AiAgent::new()
    }
}

} // verus!
