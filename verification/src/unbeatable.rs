//! The engine cannot be beaten: whatever its opponent plays from the empty
//! board, the game never ends in a win for `X`.
//!
//! The proof has two parts. That the first player cannot force a win is
//! settled by unfolding the whole game tree (`unbeaten`). That the engine then
//! never gives the draw away follows from what its move is: a square of
//! highest minimax value.

use crate::ai::{
    best_among, best_move_for, lemma_best_among_extremum, lemma_best_among_some,
    lemma_best_move_for, lemma_place_fills, minimax, mover, place, playable, reply_value,
};
use crate::board::{
    cell_index, count_empty, empty_cells, game_over, grid_full, lemma_empty_cells, position_of,
    vacancy, winner_of, Cell,
};
use crate::game::{outcome_of, GameResult};
use vstd::prelude::*;

verus! {

/// The opponent cannot force a win from `cells`: under best play by both
/// sides the game ends in a draw or in a win for the engine.
pub open spec fn secure(cells: Seq<Cell>, engine_to_move: bool) -> bool {
    minimax(cells, 0, engine_to_move) >= 0
}

/// A game from `cells`, the opponent to move: each square of `human_moves` in
/// turn is marked `X` unless the game is over or the square is not playable,
/// and each such move is answered by the engine unless it ended the game.
pub open spec fn self_play(cells: Seq<Cell>, human_moves: Seq<(usize, usize)>) -> Seq<Cell>
    decreases human_moves.len(),
{
    if human_moves.len() == 0 {
        cells
    } else if game_over(cells) || !playable(cells, human_moves[0]) {
        self_play(cells, human_moves.drop_first())
    } else {
        let met = place(cells, human_moves[0], Cell::X);
        let answered = if game_over(met) {
            met
        } else {
            match best_move_for(met) {
                Some(reply) => place(met, reply, Cell::O),
                None => met,
            }
        };
        self_play(answered, human_moves.drop_first())
    }
}

/// The three cells carry `mark`.
spec fn three(mark: Cell, p: Cell, q: Cell, r: Cell) -> bool {
    p == mark && q == mark && r == mark
}

/// `mark` fills a row, a column or a diagonal of the grid
/// ```text
/// a b c
/// d e f
/// g h i
/// ```
#[verifier::opaque]
spec fn has_line(
    mark: Cell,
    a: Cell,
    b: Cell,
    c: Cell,
    d: Cell,
    e: Cell,
    f: Cell,
    g: Cell,
    h: Cell,
    i: Cell,
) -> bool {
    three(mark, a, b, c)
        || three(mark, d, e, f)
        || three(mark, g, h, i)
        || three(mark, a, d, g)
        || three(mark, b, e, h)
        || three(mark, c, f, i)
        || three(mark, a, e, i)
        || three(mark, c, e, g)
}

/// The game tree below the grid `a`..`i`, unfolded square by square: `X` has
/// no line, and unless `O` has one or no ply is left, the engine, when it is
/// to move, has some empty square after which this holds again, and its
/// opponent, when it is to move, has no empty square after which it fails.
#[verifier::opaque]
spec fn unbeaten(
    a: Cell,
    b: Cell,
    c: Cell,
    d: Cell,
    e: Cell,
    f: Cell,
    g: Cell,
    h: Cell,
    i: Cell,
    engine_to_move: bool,
    plies: nat,
) -> bool
    decreases plies,
{
    let left = (plies - 1) as nat;
    if has_line(Cell::X, a, b, c, d, e, f, g, h, i) {
        false
    } else if has_line(Cell::O, a, b, c, d, e, f, g, h, i) || plies == 0 {
        true
    } else if engine_to_move {
        (a == Cell::Empty && unbeaten(Cell::O, b, c, d, e, f, g, h, i, false, left))
            || (b == Cell::Empty && unbeaten(a, Cell::O, c, d, e, f, g, h, i, false, left))
            || (c == Cell::Empty && unbeaten(a, b, Cell::O, d, e, f, g, h, i, false, left))
            || (d == Cell::Empty && unbeaten(a, b, c, Cell::O, e, f, g, h, i, false, left))
            || (e == Cell::Empty && unbeaten(a, b, c, d, Cell::O, f, g, h, i, false, left))
            || (f == Cell::Empty && unbeaten(a, b, c, d, e, Cell::O, g, h, i, false, left))
            || (g == Cell::Empty && unbeaten(a, b, c, d, e, f, Cell::O, h, i, false, left))
            || (h == Cell::Empty && unbeaten(a, b, c, d, e, f, g, Cell::O, i, false, left))
            || (i == Cell::Empty && unbeaten(a, b, c, d, e, f, g, h, Cell::O, false, left))
    } else {
        (a == Cell::Empty ==> unbeaten(Cell::X, b, c, d, e, f, g, h, i, true, left))
            && (b == Cell::Empty ==> unbeaten(a, Cell::X, c, d, e, f, g, h, i, true, left))
            && (c == Cell::Empty ==> unbeaten(a, b, Cell::X, d, e, f, g, h, i, true, left))
            && (d == Cell::Empty ==> unbeaten(a, b, c, Cell::X, e, f, g, h, i, true, left))
            && (e == Cell::Empty ==> unbeaten(a, b, c, d, Cell::X, f, g, h, i, true, left))
            && (f == Cell::Empty ==> unbeaten(a, b, c, d, e, Cell::X, g, h, i, true, left))
            && (g == Cell::Empty ==> unbeaten(a, b, c, d, e, f, Cell::X, h, i, true, left))
            && (h == Cell::Empty ==> unbeaten(a, b, c, d, e, f, g, Cell::X, i, true, left))
            && (i == Cell::Empty ==> unbeaten(a, b, c, d, e, f, g, h, Cell::X, true, left))
    }
}

/// `has_line` for the nine cells of `cells`.
spec fn line_on(mark: Cell, cells: Seq<Cell>) -> bool {
    has_line(
        mark,
        cells[0],
        cells[1],
        cells[2],
        cells[3],
        cells[4],
        cells[5],
        cells[6],
        cells[7],
        cells[8],
    )
}

/// `unbeaten` for the nine cells of `cells` and as many plies as it has empty
/// cells.
#[verifier::opaque]
spec fn unbeaten_on(cells: Seq<Cell>, engine_to_move: bool) -> bool {
    unbeaten(
        cells[0],
        cells[1],
        cells[2],
        cells[3],
        cells[4],
        cells[5],
        cells[6],
        cells[7],
        cells[8],
        engine_to_move,
        count_empty(cells),
    )
}

/// The cell of the grid `a`..`i` at row-major position `square`.
spec fn cell_at(
    a: Cell,
    b: Cell,
    c: Cell,
    d: Cell,
    e: Cell,
    f: Cell,
    g: Cell,
    h: Cell,
    i: Cell,
    square: int,
) -> Cell {
    if square == 0 {
        a
    } else if square == 1 {
        b
    } else if square == 2 {
        c
    } else if square == 3 {
        d
    } else if square == 4 {
        e
    } else if square == 5 {
        f
    } else if square == 6 {
        g
    } else if square == 7 {
        h
    } else {
        i
    }
}

/// `unbeaten` for the grid `a`..`i` with `mark` put at position `square`.
#[verifier::opaque]
spec fn unbeaten_after(
    a: Cell,
    b: Cell,
    c: Cell,
    d: Cell,
    e: Cell,
    f: Cell,
    g: Cell,
    h: Cell,
    i: Cell,
    square: int,
    mark: Cell,
    engine_to_move: bool,
    plies: nat,
) -> bool {
    unbeaten(
        if square == 0 {
            mark
        } else {
            a
        },
        if square == 1 {
            mark
        } else {
            b
        },
        if square == 2 {
            mark
        } else {
            c
        },
        if square == 3 {
            mark
        } else {
            d
        },
        if square == 4 {
            mark
        } else {
            e
        },
        if square == 5 {
            mark
        } else {
            f
        },
        if square == 6 {
            mark
        } else {
            g
        },
        if square == 7 {
            mark
        } else {
            h
        },
        if square == 8 {
            mark
        } else {
            i
        },
        engine_to_move,
        plies,
    )
}

/// The first player cannot force a win from the empty board. The solver
/// finds this by unfolding `unbeaten` down to the last ply.
#[verifier::rlimit(50)]
proof fn lemma_empty_board_unbeaten()
    ensures
        unbeaten(
            Cell::Empty,
            Cell::Empty,
            Cell::Empty,
            Cell::Empty,
            Cell::Empty,
            Cell::Empty,
            Cell::Empty,
            Cell::Empty,
            Cell::Empty,
            false,
            9,
        ),
{
    reveal(has_line);
    reveal_with_fuel(unbeaten, 10);
}

/// One level of `unbeaten` with the engine to move, written out.
proof fn lemma_unbeaten_engine_ply(
    a: Cell,
    b: Cell,
    c: Cell,
    d: Cell,
    e: Cell,
    f: Cell,
    g: Cell,
    h: Cell,
    i: Cell,
    plies: nat,
)
    requires
        unbeaten(a, b, c, d, e, f, g, h, i, true, plies),
        !has_line(Cell::O, a, b, c, d, e, f, g, h, i),
        plies > 0,
    ensures
        ({
            let left = (plies - 1) as nat;
            (a == Cell::Empty && unbeaten(Cell::O, b, c, d, e, f, g, h, i, false, left))
                || (b == Cell::Empty && unbeaten(a, Cell::O, c, d, e, f, g, h, i, false, left))
                || (c == Cell::Empty && unbeaten(a, b, Cell::O, d, e, f, g, h, i, false, left))
                || (d == Cell::Empty && unbeaten(a, b, c, Cell::O, e, f, g, h, i, false, left))
                || (e == Cell::Empty && unbeaten(a, b, c, d, Cell::O, f, g, h, i, false, left))
                || (f == Cell::Empty && unbeaten(a, b, c, d, e, Cell::O, g, h, i, false, left))
                || (g == Cell::Empty && unbeaten(a, b, c, d, e, f, Cell::O, h, i, false, left))
                || (h == Cell::Empty && unbeaten(a, b, c, d, e, f, g, Cell::O, i, false, left))
                || (i == Cell::Empty && unbeaten(a, b, c, d, e, f, g, h, Cell::O, false, left))
        }),
{
    reveal(unbeaten);
}

/// One level of `unbeaten` with the engine to move: an empty square after
/// which `unbeaten` holds again.
proof fn lemma_unbeaten_engine_square(
    a: Cell,
    b: Cell,
    c: Cell,
    d: Cell,
    e: Cell,
    f: Cell,
    g: Cell,
    h: Cell,
    i: Cell,
    plies: nat,
) -> (square: int)
    requires
        unbeaten(a, b, c, d, e, f, g, h, i, true, plies),
        !has_line(Cell::O, a, b, c, d, e, f, g, h, i),
        plies > 0,
    ensures
        0 <= square < 9,
        cell_at(a, b, c, d, e, f, g, h, i, square) == Cell::Empty,
        unbeaten_after(a, b, c, d, e, f, g, h, i, square, Cell::O, false, (plies - 1) as nat),
{
    lemma_unbeaten_engine_ply(a, b, c, d, e, f, g, h, i, plies);
    reveal(unbeaten_after);
    let left = (plies - 1) as nat;
    if a == Cell::Empty && unbeaten_after(
        a, b, c, d, e, f, g, h, i, 0, Cell::O, false, left,
    ) {
        0
    } else if b == Cell::Empty && unbeaten_after(
        a, b, c, d, e, f, g, h, i, 1, Cell::O, false, left,
    ) {
        1
    } else if c == Cell::Empty && unbeaten_after(
        a, b, c, d, e, f, g, h, i, 2, Cell::O, false, left,
    ) {
        2
    } else if d == Cell::Empty && unbeaten_after(
        a, b, c, d, e, f, g, h, i, 3, Cell::O, false, left,
    ) {
        3
    } else if e == Cell::Empty && unbeaten_after(
        a, b, c, d, e, f, g, h, i, 4, Cell::O, false, left,
    ) {
        4
    } else if f == Cell::Empty && unbeaten_after(
        a, b, c, d, e, f, g, h, i, 5, Cell::O, false, left,
    ) {
        5
    } else if g == Cell::Empty && unbeaten_after(
        a, b, c, d, e, f, g, h, i, 6, Cell::O, false, left,
    ) {
        6
    } else if h == Cell::Empty && unbeaten_after(
        a, b, c, d, e, f, g, h, i, 7, Cell::O, false, left,
    ) {
        7
    } else {
        8
    }
}

/// Putting `mark` on the cell `square` of `cells` is putting it at position
/// `square` of the grid of its nine cells.
proof fn lemma_unbeaten_after_update(
    cells: Seq<Cell>,
    square: int,
    mark: Cell,
    engine_to_move: bool,
)
    requires
        cells.len() == 9,
        0 <= square < 9,
        mark != Cell::Empty,
    ensures
        cells[square] == cell_at(
            cells[0],
            cells[1],
            cells[2],
            cells[3],
            cells[4],
            cells[5],
            cells[6],
            cells[7],
            cells[8],
            square,
        ),
        cells[square] == Cell::Empty ==> unbeaten_on(cells.update(square, mark), engine_to_move)
            == unbeaten_after(
            cells[0],
            cells[1],
            cells[2],
            cells[3],
            cells[4],
            cells[5],
            cells[6],
            cells[7],
            cells[8],
            square,
            mark,
            engine_to_move,
            (count_empty(cells) - 1) as nat,
        ),
{
    reveal(unbeaten_on);
    reveal(unbeaten_after);
}

/// Where `winner_of` finds no winner, neither mark has a line; where it finds
/// `X`, `X` has one.
proof fn lemma_winner_has_line(cells: Seq<Cell>)
    requires
        cells.len() == 9,
    ensures
        winner_of(cells) is None ==> !line_on(Cell::X, cells) && !line_on(Cell::O, cells),
        winner_of(cells) == Some(Cell::X) ==> line_on(Cell::X, cells),
{
    reveal(has_line);
}

/// A grid that is not full has an empty cell to count.
proof fn lemma_not_full_has_empty(cells: Seq<Cell>)
    requires
        !grid_full(cells),
    ensures
        count_empty(cells) > 0,
{
    let i = choose|i: int| 0 <= i < 9 && cells[i] == Cell::Empty;
    assert(vacancy(cells[i]) == 1);
}

/// Where the engine is to move and `unbeaten_on` holds, an empty cell after
/// which it holds again.
proof fn lemma_unbeaten_reply(cells: Seq<Cell>) -> (reply: int)
    requires
        cells.len() == 9,
        winner_of(cells) is None,
        !grid_full(cells),
        unbeaten_on(cells, true),
    ensures
        0 <= reply < 9,
        cells[reply] == Cell::Empty,
        unbeaten_on(cells.update(reply, Cell::O), false),
{
    lemma_winner_has_line(cells);
    lemma_not_full_has_empty(cells);
    reveal(unbeaten_on);
    let reply = lemma_unbeaten_engine_square(
        cells[0],
        cells[1],
        cells[2],
        cells[3],
        cells[4],
        cells[5],
        cells[6],
        cells[7],
        cells[8],
        count_empty(cells),
    );
    lemma_unbeaten_after_update(cells, reply, Cell::O, false);
    reply
}

/// Where the opponent is to move and `unbeaten_on` holds, it holds again
/// after each of its moves.
proof fn lemma_unbeaten_any_move(cells: Seq<Cell>, square: int)
    requires
        cells.len() == 9,
        winner_of(cells) is None,
        0 <= square < 9,
        cells[square] == Cell::Empty,
        unbeaten_on(cells, false),
    ensures
        unbeaten_on(cells.update(square, Cell::X), true),
{
    lemma_winner_has_line(cells);
    assert(count_empty(cells) > 0) by {
        assert(vacancy(cells[square]) == 1);
    }
    reveal(unbeaten_on);
    reveal(unbeaten);
}

/// Where the unfolded game tree has no win for `X`, the minimax value is not
/// negative.
proof fn lemma_unbeaten_secure(cells: Seq<Cell>, engine_to_move: bool, depth: int)
    requires
        cells.len() == 9,
        0 <= depth,
        depth + count_empty(cells) < 100,
        unbeaten_on(cells, engine_to_move),
    ensures
        minimax(cells, depth, engine_to_move) >= 0,
    decreases count_empty(cells),
{
    let moves = empty_cells(cells);
    lemma_empty_cells(cells);
    lemma_best_among_some(cells, depth + 1, engine_to_move, moves);
    lemma_winner_has_line(cells);
    assert(!line_on(Cell::X, cells)) by {
        reveal(unbeaten_on);
        reveal(unbeaten);
    }
    if winner_of(cells) is None && !grid_full(cells) {
        lemma_best_among_extremum(cells, depth + 1, engine_to_move, moves);
        if engine_to_move {
            let i = lemma_unbeaten_reply(cells);
            let square = position_of(i);
            assert(cell_index(square.0 as int, square.1 as int) == i);
            lemma_place_fills(cells, square, Cell::O);
            lemma_unbeaten_secure(place(cells, square, Cell::O), false, depth + 1);
            assert(moves.contains(square));
            let k = choose|k: int| 0 <= k < moves.len() && moves[k] == square;
            assert(playable(cells, moves[k]));
        } else {
            let value = best_among(cells, depth + 1, false, moves)->0;
            let k = choose|k: int|
                0 <= k < moves.len() && playable(cells, #[trigger] moves[k]) && minimax(
                    place(cells, moves[k], mover(false)),
                    depth + 1,
                    true,
                ) == value;
            let i = cell_index(moves[k].0 as int, moves[k].1 as int);
            lemma_unbeaten_any_move(cells, i);
            lemma_place_fills(cells, moves[k], Cell::X);
            lemma_unbeaten_secure(place(cells, moves[k], Cell::X), true, depth + 1);
        }
    }
}

/// On the empty board, with the opponent to move, the engine is secure.
pub proof fn lemma_empty_board_secure()
    ensures
        secure(Seq::new(9, |i: int| Cell::Empty), false),
{
    lemma_empty_board_unbeaten();
    assert(unbeaten_on(Seq::new(9, |i: int| Cell::Empty), false)) by {
        reveal(unbeaten_on);
    }
    lemma_unbeaten_secure(Seq::new(9, |i: int| Cell::Empty), false, 0);
}

/// Whether a value is negative does not depend on the depth from which the
/// plies are counted, as long as no count reaches 100.
pub proof fn lemma_sign_at_any_depth(
    cells: Seq<Cell>,
    engine_to_move: bool,
    depth: int,
    other_depth: int,
)
    requires
        cells.len() == 9,
        0 <= depth,
        0 <= other_depth,
        depth + count_empty(cells) < 100,
        other_depth + count_empty(cells) < 100,
    ensures
        minimax(cells, depth, engine_to_move) >= 0 <==> minimax(cells, other_depth, engine_to_move)
            >= 0,
    decreases count_empty(cells), 1int, 0nat,
{
    if winner_of(cells) is None {
        lemma_best_sign_at_any_depth(
            cells,
            engine_to_move,
            depth + 1,
            other_depth + 1,
            empty_cells(cells),
        );
    }
}

/// `lemma_sign_at_any_depth`, for the best among some replies.
proof fn lemma_best_sign_at_any_depth(
    cells: Seq<Cell>,
    engine_to_move: bool,
    depth: int,
    other_depth: int,
    moves: Seq<(usize, usize)>,
)
    requires
        cells.len() == 9,
        1 <= depth,
        1 <= other_depth,
        depth + count_empty(cells) <= 100,
        other_depth + count_empty(cells) <= 100,
    ensures
        best_among(cells, depth, engine_to_move, moves) is Some <==> best_among(
            cells,
            other_depth,
            engine_to_move,
            moves,
        ) is Some,
        best_among(cells, depth, engine_to_move, moves) is Some ==> (best_among(
            cells,
            depth,
            engine_to_move,
            moves,
        )->0 >= 0 <==> best_among(cells, other_depth, engine_to_move, moves)->0 >= 0),
    decreases count_empty(cells), 0int, moves.len(),
{
    if moves.len() > 0 {
        lemma_best_sign_at_any_depth(
            cells,
            engine_to_move,
            depth,
            other_depth,
            moves.drop_first(),
        );
        if playable(cells, moves[0]) {
            lemma_place_fills(cells, moves[0], mover(engine_to_move));
            lemma_sign_at_any_depth(
                place(cells, moves[0], mover(engine_to_move)),
                !engine_to_move,
                depth,
                other_depth,
            );
        }
    }
}

/// A secure position is not a win for `X`.
pub proof fn lemma_secure_not_lost(cells: Seq<Cell>, engine_to_move: bool)
    requires
        secure(cells, engine_to_move),
    ensures
        winner_of(cells) != Some(Cell::X),
{
}

/// Once the game is over, being secure does not depend on whose turn it
/// would be.
pub proof fn lemma_secure_when_over(cells: Seq<Cell>)
    requires
        cells.len() == 9,
        game_over(cells),
    ensures
        secure(cells, true) <==> secure(cells, false),
{
    lemma_empty_cells(cells);
    lemma_best_among_some(cells, 1, true, empty_cells(cells));
    lemma_best_among_some(cells, 1, false, empty_cells(cells));
}

/// No move of the opponent breaks a secure position: after any legal move,
/// with the engine to answer, the position is secure, and so `X` has not won.
pub proof fn lemma_human_move_keeps_secure(cells: Seq<Cell>, human: (usize, usize))
    requires
        secure(cells, false),
        !game_over(cells),
        playable(cells, human),
    ensures
        secure(place(cells, human, Cell::X), true),
        winner_of(place(cells, human, Cell::X)) != Some(Cell::X),
{
    let moves = empty_cells(cells);
    let met = place(cells, human, Cell::X);
    lemma_empty_cells(cells);
    lemma_place_fills(cells, human, Cell::X);
    // The move cannot lower the value below what best play by `X` gives.
    lemma_best_among_some(cells, 1, false, moves);
    lemma_best_among_extremum(cells, 1, false, moves);
    assert(moves.contains(human));
    let k = choose|k: int| 0 <= k < moves.len() && moves[k] == human;
    assert(playable(cells, moves[k]));
    assert(minimax(met, 1, true) >= 0);
    lemma_sign_at_any_depth(met, true, 1, 0);
}

/// The engine's move keeps a secure position secure.
pub proof fn lemma_engine_move_keeps_secure(cells: Seq<Cell>)
    requires
        cells.len() == 9,
        secure(cells, true),
        !game_over(cells),
    ensures
        best_move_for(cells) matches Some(reply) && playable(cells, reply) && secure(
            place(cells, reply, Cell::O),
            false,
        ),
{
    let answers = empty_cells(cells);
    lemma_empty_cells(cells);
    // Some answer keeps the value, and the engine's answer is no worse.
    lemma_best_among_some(cells, 1, true, answers);
    lemma_best_among_extremum(cells, 1, true, answers);
    let j = choose|j: int|
        0 <= j < answers.len() && playable(cells, #[trigger] answers[j]) && minimax(
            place(cells, answers[j], mover(true)),
            1,
            false,
        ) == minimax(cells, 0, true);
    lemma_place_fills(cells, answers[j], Cell::O);
    lemma_sign_at_any_depth(place(cells, answers[j], Cell::O), false, 1, 0);
    lemma_best_move_for(cells);
    assert(reply_value(cells, answers[j]) >= 0);
}

/// From a secure position the engine stays secure, whatever the opponent
/// plays.
pub proof fn lemma_self_play_secure(cells: Seq<Cell>, human_moves: Seq<(usize, usize)>)
    requires
        cells.len() == 9,
        secure(cells, false),
    ensures
        self_play(cells, human_moves).len() == 9,
        secure(self_play(cells, human_moves), false),
        winner_of(self_play(cells, human_moves)) != Some(Cell::X),
    decreases human_moves.len(),
{
    if human_moves.len() == 0 {
    } else if game_over(cells) || !playable(cells, human_moves[0]) {
        lemma_self_play_secure(cells, human_moves.drop_first());
    } else {
        let met = place(cells, human_moves[0], Cell::X);
        lemma_human_move_keeps_secure(cells, human_moves[0]);
        lemma_place_fills(cells, human_moves[0], Cell::X);
        if game_over(met) {
            lemma_secure_when_over(met);
            lemma_self_play_secure(met, human_moves.drop_first());
        } else {
            lemma_engine_move_keeps_secure(met);
            let reply = best_move_for(met)->0;
            lemma_place_fills(met, reply, Cell::O);
            lemma_self_play_secure(place(met, reply, Cell::O), human_moves.drop_first());
        }
    }
}

/// The engine is never beaten: a game that starts on the empty board, in
/// which the opponent plays any squares whatever and the engine answers each
/// move, does not end in a win for `X`.
pub proof fn lemma_engine_never_loses(human_moves: Seq<(usize, usize)>)
    ensures
        winner_of(self_play(Seq::new(9, |i: int| Cell::Empty), human_moves)) != Some(Cell::X),
        outcome_of(self_play(Seq::new(9, |i: int| Cell::Empty), human_moves)) != Some(
            GameResult::HumanWin,
        ),
{
    lemma_empty_board_secure();
    lemma_self_play_secure(Seq::new(9, |i: int| Cell::Empty), human_moves);
}

} // verus!
