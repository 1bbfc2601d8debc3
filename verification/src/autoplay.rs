//! Playing what can be proven: opening the cells that cannot be mines and flagging those
//! that must be.

use vstd::prelude::*;
use crate::big_nat::BigNat;
use crate::board;
use crate::board::{CellState, GameState, Minesweeper};
use crate::layouts;
use crate::moves;
use crate::moves::Move;
use crate::probability;
use crate::probability::consistent;
use crate::probability::constraint_search::ConstraintSearch;
use crate::probability::estimate::Estimate;
use crate::probability::propagate;
use crate::probability::setup;
use crate::probability::CertainCells;

verus! {

// ---------------------------------------------------------------------------
// Opening and flagging lists of cells
// ---------------------------------------------------------------------------

/// Whether all listed cells lie on a board.
pub open spec fn on(game: Minesweeper, cells: Seq<(usize, usize)>) -> bool {
    forall|i: int|
        0 <= i < cells.len() ==> game.has((#[trigger] cells[i]).0 as int, cells[i].1 as int)
}

/// Whether none of the listed cells is a mine.
pub open spec fn no_mines(game: Minesweeper, cells: Seq<(usize, usize)>) -> bool {
    forall|i: int|
        0 <= i < cells.len() ==> !game.mine_at((#[trigger] cells[i]).0 as int, cells[i].1 as int)
}

/// Whether all of the listed cells are mines.
pub open spec fn all_mines(game: Minesweeper, cells: Seq<(usize, usize)>) -> bool {
    forall|i: int|
        0 <= i < cells.len() ==> game.mine_at((#[trigger] cells[i]).0 as int, cells[i].1 as int)
}

/// Whether none of the listed cells is hidden.
pub open spec fn none_hidden(game: Minesweeper, cells: Seq<(usize, usize)>) -> bool {
    forall|i: int|
        0 <= i < cells.len() ==> game.at(
            (#[trigger] cells[i]).0 as int,
            cells[i].1 as int,
        ).state != CellState::Hidden
}

/// Whether moves only open cells of a list.
pub open spec fn only_open(moves: Seq<Move>, cells: Seq<(usize, usize)>) -> bool {
    forall|i: int|
        0 <= i < moves.len() ==> (#[trigger] moves[i]) is Open && cells.contains(
            (moves[i]->Open_0, moves[i]->Open_1),
        )
}

/// Whether moves only flag cells of a list.
pub open spec fn only_flag(moves: Seq<Move>, cells: Seq<(usize, usize)>) -> bool {
    forall|i: int|
        0 <= i < moves.len() ==> (#[trigger] moves[i]) is Flag && cells.contains(
            (moves[i]->Flag_0, moves[i]->Flag_1),
        )
}

/// Whether moves only flag cells of one list and open cells of another.
pub open spec fn only_these(
    moves: Seq<Move>,
    mines: Seq<(usize, usize)>,
    safe: Seq<(usize, usize)>,
) -> bool {
    forall|i: int| 0 <= i < moves.len() ==> among(#[trigger] moves[i], mines, safe)
}

/// Whether a move flags a cell of one list or opens a cell of another.
pub open spec fn among(step: Move, mines: Seq<(usize, usize)>, safe: Seq<(usize, usize)>) -> bool {
    match step {
        Move::Open(x, y) => safe.contains((x, y)),
        Move::Flag(x, y) => mines.contains((x, y)),
    }
}

/// Whether a board comes of trying a cell: it is opened if it is hidden, and passed over
/// otherwise.
pub open spec fn tried_one(before: Minesweeper, cell: (usize, usize), after: Minesweeper) -> bool {
    if before.at(cell.0 as int, cell.1 as int).state == CellState::Hidden {
        moves::made(before, Move::Open(cell.0, cell.1), after)
    } else {
        after == before
    }
}

/// Whether each board comes of the one before by trying the next of the listed cells.
pub open spec fn tried(games: Seq<Minesweeper>, cells: Seq<(usize, usize)>) -> bool {
    &&& games.len() == cells.len() + 1
    &&& forall|i: int|
        0 <= i < cells.len() ==> tried_one(games[i], #[trigger] cells[i], games[i + 1])
}

/// How many of the first `k` cells were hidden when their turn came.
pub open spec fn hits(games: Seq<Minesweeper>, cells: Seq<(usize, usize)>, k: nat) -> nat
    decreases k,
{
    if k == 0 {
        0
    } else {
        let cell = cells[k - 1];
        hits(games, cells, (k - 1) as nat) + if games[k - 1].at(
            cell.0 as int,
            cell.1 as int,
        ).state == CellState::Hidden {
            1nat
        } else {
            0nat
        }
    }
}

/// Whether a board comes of opening those of the listed cells that are hidden when their
/// turn comes, in the order of the list; and how many there are.
pub open spec fn opened_in_turn(
    before: Minesweeper,
    cells: Seq<(usize, usize)>,
    after: Minesweeper,
    opened: nat,
) -> bool {
    exists|games: Seq<Minesweeper>|
        {
            &&& #[trigger] tried(games, cells)
            &&& games[0] == before
            &&& games.last() == after
            &&& hits(games, cells, cells.len()) == opened
        }
}

/// Whether a board comes of flagging some cells and then opening others.
pub open spec fn flagged_then_opened(
    before: Minesweeper,
    mines: Seq<(usize, usize)>,
    safe: Seq<(usize, usize)>,
    after: Minesweeper,
    opened: nat,
) -> bool {
    exists|middle: Minesweeper| #[trigger]
        flags_put(before, mines, middle) && opened_in_turn(middle, safe, after, opened)
}

/// Whether a board comes of opening some cells and then, if the game goes on, flagging
/// others.
pub open spec fn opened_then_flagged(
    before: Minesweeper,
    mines: Seq<(usize, usize)>,
    safe: Seq<(usize, usize)>,
    after: Minesweeper,
    opened: nat,
) -> bool {
    exists|middle: Minesweeper| #[trigger]
        opened_in_turn(before, safe, middle, opened) && if middle.state == GameState::Playing {
            flags_put(middle, mines, after)
        } else {
            after == middle
        }
}

/// Whether a board comes of one round of what propagation proves on another one.
pub open spec fn proven_round(
    before: Minesweeper,
    flags_first: bool,
    after: Minesweeper,
    opened: nat,
) -> bool {
    if flags_first {
        flagged_then_opened(
            before,
            probability::proven_mines(before),
            probability::proven_safe(before),
            after,
            opened,
        )
    } else {
        opened_then_flagged(
            before,
            probability::proven_mines(before),
            probability::proven_safe(before),
            after,
            opened,
        )
    }
}

/// Whether a board comes of such a round in a game that goes on; of one that opens
/// something, unless it is the last.
pub open spec fn next_round(before: Minesweeper, after: Minesweeper, last: bool) -> bool {
    &&& before.state == GameState::Playing
    &&& exists|opened: nat| #[trigger]
        proven_round(before, false, after, opened) && (opened > 0 || last)
}

/// Whether boards come one of another by rounds of what propagation proves, as long as
/// the game goes on and each round opens something.
#[verifier::opaque]
pub open spec fn rounds(games: Seq<Minesweeper>) -> bool {
    &&& games.len() >= 2
    &&& forall|i: int|
        #![trigger games[i]]
        0 <= i < games.len() - 1 ==> next_round(games[i], games[i + 1], i == games.len() - 2)
}

/// Whether nothing is left to open after some rounds: the game is over, or the last round
/// opened nothing.
pub open spec fn run_out(games: Seq<Minesweeper>) -> bool {
    ||| games.last().state != GameState::Playing
    ||| proven_round(games[games.len() - 2], false, games.last(), 0)
}

/// Whether a board comes of such rounds, played to the end.
pub open spec fn played_dry(before: Minesweeper, after: Minesweeper) -> bool {
    exists|games: Seq<Minesweeper>|
        {
            &&& #[trigger] rounds(games)
            &&& games[0] == before
            &&& games.last() == after
            &&& run_out(games)
        }
}

/// Whether no layout that agrees with what a board shows puts a mine on a cell.
pub open spec fn surely_safe(game: Minesweeper, cell: (int, int)) -> bool {
    forall|m: Set<(int, int)>| #[trigger]
        consistent::consistent(game).contains(m) ==> !m.contains(cell)
}

/// Whether every layout that agrees with what a board shows puts a mine on a cell.
pub open spec fn surely_mined(game: Minesweeper, cell: (int, int)) -> bool {
    forall|m: Set<(int, int)>| #[trigger]
        consistent::consistent(game).contains(m) ==> m.contains(cell)
}

/// Whether what a board shows proves a move right: what is opened is safe, and what is
/// flagged is a mine.
pub open spec fn proves(game: Minesweeper, step: Move) -> bool {
    match step {
        Move::Open(x, y) => surely_safe(game, (x as int, y as int)),
        Move::Flag(x, y) => surely_mined(game, (x as int, y as int)),
    }
}

/// Whether one of the first boards proves a move right.
pub open spec fn proven_by_then(games: Seq<Minesweeper>, upto: int, step: Move) -> bool {
    exists|j: int| 0 <= j <= upto && proves(#[trigger] games[j], step)
}

/// Whether moves lead from one board to another, each of them proven right by what a
/// board shows that was passed until then.
pub open spec fn leads_on_proof(before: Minesweeper, moves: Seq<Move>, after: Minesweeper) -> bool {
    exists|games: Seq<Minesweeper>|
        {
            &&& #[trigger] moves::played(games, moves)
            &&& games[0] == before
            &&& games.last() == after
            &&& forall|i: int|
                0 <= i < moves.len() ==> proven_by_then(games, i, #[trigger] moves[i])
        }
}

/// Whether all listed cells are surely safe, or surely mines.
pub open spec fn all_safe(game: Minesweeper, cells: Seq<(usize, usize)>) -> bool {
    forall|i: int| 0 <= i < cells.len() ==> surely_safe(game, board::spot(#[trigger] cells[i]))
}

pub open spec fn all_mined(game: Minesweeper, cells: Seq<(usize, usize)>) -> bool {
    forall|i: int| 0 <= i < cells.len() ==> surely_mined(game, board::spot(#[trigger] cells[i]))
}

/// Moves on proof are moves.
pub proof fn lemma_on_proof_leads(before: Minesweeper, moves: Seq<Move>, after: Minesweeper)
    requires
        leads_on_proof(before, moves, after),
    ensures
        moves::leads(before, moves, after),
{
    let games = choose|games: Seq<Minesweeper>|
        {
            &&& #[trigger] moves::played(games, moves)
            &&& games[0] == before
            &&& games.last() == after
            &&& forall|i: int|
                0 <= i < moves.len() ==> proven_by_then(games, i, #[trigger] moves[i])
        };
    assert(moves::played(games, moves) && games[0] == before && games.last() == after);
}

/// No moves need no proof.
pub proof fn lemma_on_proof_nowhere(game: Minesweeper)
    ensures
        leads_on_proof(game, Seq::empty(), game),
        moves::opens(Seq::empty()) == 0,
{
    assert(moves::played(seq![game], Seq::empty()));
}

/// Moves that the first board proves right.
pub proof fn lemma_proven_at_once(
    before: Minesweeper,
    moves: Seq<Move>,
    after: Minesweeper,
    mines: Seq<(usize, usize)>,
    safe: Seq<(usize, usize)>,
)
    requires
        moves::leads(before, moves, after),
        only_these(moves, mines, safe),
        all_safe(before, safe),
        all_mined(before, mines),
    ensures
        leads_on_proof(before, moves, after),
{
    let games = choose|games: Seq<Minesweeper>| #[trigger]
        moves::played(games, moves) && games[0] == before && games.last() == after;
    assert forall|i: int| 0 <= i < moves.len() implies proven_by_then(
        games,
        i,
        #[trigger] moves[i],
    ) by {
        assert(among(moves[i], mines, safe));
        match moves[i] {
            Move::Open(x, y) => {
                let k = choose|k: int| 0 <= k < safe.len() && safe[k] == (x, y);
                assert(surely_safe(before, board::spot(safe[k])));
            },
            Move::Flag(x, y) => {
                let k = choose|k: int| 0 <= k < mines.len() && mines[k] == (x, y);
                assert(surely_mined(before, board::spot(mines[k])));
            },
        }
        assert(proves(games[0], moves[i]));
    }
}

/// Moves on proof after moves on proof.
pub proof fn lemma_on_proof_through(
    start: Minesweeper,
    first: Seq<Move>,
    middle: Minesweeper,
    second: Seq<Move>,
    end: Minesweeper,
)
    requires
        leads_on_proof(start, first, middle),
        leads_on_proof(middle, second, end),
    ensures
        leads_on_proof(start, first + second, end),
        moves::opens(first + second) == moves::opens(first) + moves::opens(second),
{
    lemma_on_proof_leads(start, first, middle);
    lemma_on_proof_leads(middle, second, end);
    moves::lemma_leads_through(start, first, middle, second, end);
    let a = choose|games: Seq<Minesweeper>|
        {
            &&& #[trigger] moves::played(games, first)
            &&& games[0] == start
            &&& games.last() == middle
            &&& forall|i: int|
                0 <= i < first.len() ==> proven_by_then(games, i, #[trigger] first[i])
        };
    let b = choose|games: Seq<Minesweeper>|
        {
            &&& #[trigger] moves::played(games, second)
            &&& games[0] == middle
            &&& games.last() == end
            &&& forall|i: int|
                0 <= i < second.len() ==> proven_by_then(games, i, #[trigger] second[i])
        };
    let n = first.len() as int;
    let all = first + second;
    let games = a.drop_last() + b;
    assert(games.len() == all.len() + 1);
    assert forall|i: int| 0 <= i <= n implies games[i] == a[i] by {}
    assert forall|i: int| n <= i < games.len() implies games[i] == b[i - n] by {}
    assert forall|i: int| 0 <= i < all.len() implies moves::made(
        games[i],
        #[trigger] all[i],
        games[i + 1],
    ) by {
        if i < n {
            assert(all[i] == first[i]);
            assert(moves::made(a[i], first[i], a[i + 1]));
        } else {
            assert(all[i] == second[i - n]);
            assert(moves::made(b[i - n], second[i - n], b[i - n + 1]));
        }
    }
    assert(moves::played(games, all));
    assert(games[0] == start);
    assert(games.last() == end);
    assert forall|i: int| 0 <= i < all.len() implies proven_by_then(games, i, #[trigger] all[i]) by {
        if i < n {
            assert(all[i] == first[i]);
            assert(proven_by_then(a, i, first[i]));
            let j = choose|j: int| 0 <= j <= i && proves(#[trigger] a[j], first[i]);
            assert(proves(games[j], all[i]));
        } else {
            assert(all[i] == second[i - n]);
            assert(proven_by_then(b, i - n, second[i - n]));
            let j = choose|j: int| 0 <= j <= i - n && proves(#[trigger] b[j], second[i - n]);
            assert(games[j + n] == b[j]);
            assert(proves(games[j + n], all[i]));
        }
    }
}

/// Moves hide nothing.
pub proof fn lemma_stay_unhidden(
    before: Minesweeper,
    moves: Seq<Move>,
    after: Minesweeper,
    cells: Seq<(usize, usize)>,
)
    requires
        moves::leads(before, moves, after),
        on(before, cells),
        none_hidden(before, cells),
    ensures
        none_hidden(after, cells),
    decreases moves.len(),
{
    let games = choose|games: Seq<Minesweeper>| #[trigger]
        moves::played(games, moves) && games[0] == before && games.last() == after;
    if moves.len() > 0 {
        let less = moves.drop_last();
        let fewer = games.drop_last();
        let k = moves.len() - 1;
        assert forall|i: int| 0 <= i < less.len() implies moves::made(
            fewer[i],
            #[trigger] less[i],
            fewer[i + 1],
        ) by {
            assert(less[i] == moves[i]);
        }
        assert(moves::played(fewer, less));
        assert(moves::leads(before, less, games[k]));
        lemma_stay_unhidden(before, less, games[k], cells);
        moves::lemma_same_size(fewer, less);
        assert(moves::made(games[k], moves[k], games[k + 1]));
        assert forall|i: int| 0 <= i < cells.len() implies after.at(
            (#[trigger] cells[i]).0 as int,
            cells[i].1 as int,
        ).state != CellState::Hidden by {
            let p = (cells[i].0 as int, cells[i].1 as int);
            assert(before.has(p.0, p.1));
            assert(games[k].has(p.0, p.1));
            assert(games[k].at(p.0, p.1).state != CellState::Hidden);
            assert(after.at(p.0, p.1) == games[k + 1].at(p.0, p.1));
        }
    }
}

/// Whether a board is another one with flags on those of the listed cells that were
/// hidden.
pub open spec fn flags_put(
    before: Minesweeper,
    cells: Seq<(usize, usize)>,
    after: Minesweeper,
) -> bool {
    &&& after.same_frame(before)
    &&& after.state == before.state
    &&& after.mines_generated == before.mines_generated
    &&& after.same_contents(before)
    &&& forall|x: int, y: int|
        before.has(x, y) ==> (#[trigger] after.at(x, y)).state == if cells.contains(
            (x as usize, y as usize),
        ) && before.at(x, y).state == CellState::Hidden {
            CellState::Flagged
        } else {
            before.at(x, y).state
        }
}

/// One more cell tried.
proof fn lemma_tried_on(
    games: Seq<Minesweeper>,
    cells: Seq<(usize, usize)>,
    i: int,
    after: Minesweeper,
)
    requires
        0 <= i < cells.len(),
        tried(games, cells.take(i)),
        tried_one(games.last(), cells[i], after),
    ensures
        tried(games.push(after), cells.take(i + 1)),
        hits(games.push(after), cells.take(i + 1), (i + 1) as nat) == hits(
            games,
            cells.take(i),
            i as nat,
        ) + if games.last().at(cells[i].0 as int, cells[i].1 as int).state == CellState::Hidden {
            1nat
        } else {
            0nat
        },
{
    let more = games.push(after);
    let all = cells.take(i + 1);
    assert forall|k: int| 0 <= k < all.len() implies tried_one(
        more[k],
        #[trigger] all[k],
        more[k + 1],
    ) by {
        if k < i {
            assert(all[k] == cells.take(i)[k]);
        }
    }
    lemma_hits_same(games, cells.take(i), more, all, i as nat);
}

/// The count depends on the first boards and cells alone.
proof fn lemma_hits_same(
    a: Seq<Minesweeper>,
    some: Seq<(usize, usize)>,
    b: Seq<Minesweeper>,
    others: Seq<(usize, usize)>,
    k: nat,
)
    requires
        k <= some.len(),
        k <= others.len(),
        k <= a.len(),
        k <= b.len(),
        forall|i: int| 0 <= i < k ==> #[trigger] some[i] == others[i],
        forall|i: int| 0 <= i < k ==> #[trigger] a[i] == b[i],
    ensures
        hits(a, some, k) == hits(b, others, k),
    decreases k,
{
    if k > 0 {
        lemma_hits_same(a, some, b, others, (k - 1) as nat);
        assert(some[k - 1] == others[k - 1]);
        assert(a[k - 1] == b[k - 1]);
    }
}

/// Opens those of the listed cells that are hidden when their turn comes; returns how
/// many there were.
#[verifier::rlimit(50)]
pub fn reveal_all(game: &mut Minesweeper, cells: &Vec<(usize, usize)>) -> (opened: usize)
    requires
        old(game).wf(),
        old(game).mines_generated,
        on(*old(game), cells@),
    ensures
        final(game).wf(),
        final(game).same_frame(*old(game)),
        final(game).mines_generated,
        final(game).same_contents(*old(game)),
        exists|moves: Seq<Move>|
            {
                &&& #[trigger] moves::leads(*old(game), moves, *final(game))
                &&& only_open(moves, cells@)
                &&& opened == moves.len()
                &&& opened == moves::opens(moves)
            },
        opened_in_turn(*old(game), cells@, *final(game), opened as nat),
        opened <= cells@.len(),
        final(game).state == GameState::Playing ==> none_hidden(*final(game), cells@),
        old(game).state == GameState::Playing ==> {
            &&& opened == 0 <==> none_hidden(*old(game), cells@)
            &&& opened == 0 ==> *final(game) == *old(game)
            &&& opened > 0 ==> final(game).hidden_spots().len() < old(game).hidden_spots().len()
            &&& moves::fair(*old(game)) && no_mines(*old(game), cells@) ==> {
                &&& moves::fair(*final(game))
                &&& final(game).state != GameState::Lost
            }
        },
{
    let ghost start = *game;
    let ghost mut moves: Seq<Move> = Seq::empty();
    let ghost mut games: Seq<Minesweeper> = seq![start];
    let mut opened: usize = 0;
    proof {
        moves::lemma_leads_nowhere(start);
    }
    for i in 0..cells.len()
        invariant
            tried(games, cells@.take(i as int)),
            games[0] == start,
            games.last() == *game,
            hits(games, cells@.take(i as int), i as nat) == opened,
            start.wf(),
            start.mines_generated,
            on(start, cells@),
            game.wf(),
            game.same_frame(start),
            game.mines_generated,
            game.same_contents(start),
            moves::leads(start, moves, *game),
            only_open(moves, cells@),
            opened == moves.len(),
            opened == moves::opens(moves),
            opened <= i,
            game.state == GameState::Playing ==> none_hidden(*game, cells@.take(i as int)),
            game.state == GameState::Playing ==> start.state == GameState::Playing,
            opened == 0 ==> *game == start,
            start.state == GameState::Playing ==> {
                &&& opened == 0 <==> none_hidden(start, cells@.take(i as int))
                &&& opened > 0 ==> game.hidden_spots().len() < start.hidden_spots().len()
                &&& moves::fair(start) && no_mines(start, cells@) ==> moves::fair(*game) && game.state
                    != GameState::Lost
            },
    {
        let (x, y): (usize, usize) = cells[i];
        let ghost before = *game;
        proof {
            assert(start.has(cells@[i as int].0 as int, cells@[i as int].1 as int));
            let less = cells@.take(i as int);
            let more = cells@.take(i + 1);
            assert forall|g: Minesweeper| none_hidden(g, more) <==> none_hidden(g, less) && g.at(
                x as int,
                y as int,
            ).state != CellState::Hidden by {
                if none_hidden(g, more) {
                    assert(more[i as int] == (x, y));
                    assert forall|k: int| 0 <= k < less.len() implies g.at(
                        (#[trigger] less[k]).0 as int,
                        less[k].1 as int,
                    ).state != CellState::Hidden by {
                        assert(more[k] == less[k]);
                    }
                }
                if none_hidden(g, less) && g.at(x as int, y as int).state != CellState::Hidden {
                    assert forall|k: int| 0 <= k < more.len() implies g.at(
                        (#[trigger] more[k]).0 as int,
                        more[k].1 as int,
                    ).state != CellState::Hidden by {
                        if k < i {
                            assert(more[k] == less[k]);
                        }
                    }
                }
            }
        }
        if game.grid[y][x].state == CellState::Hidden {
            let ghost step = Move::Open(x, y);
            game.reveal_cell(x, y);
            opened = opened + 1;
            proof {
                assert(moves::made(before, step, *game));
                moves::lemma_leads_on(start, moves, before, step, *game);
                moves = moves.push(step);
                assert(cells@.contains((x, y))) by {
                    assert(cells@[i as int] == (x, y));
                }
                if before.state == GameState::Playing {
                    moves::lemma_fewer_hidden(before, step, *game);
                    assert forall|k: int|
                        0 <= k <= i && game.state == GameState::Playing implies game.at(
                        (#[trigger] cells@[k]).0 as int,
                        cells@[k].1 as int,
                    ).state != CellState::Hidden by {
                        let c = (cells@[k].0 as int, cells@[k].1 as int);
                        if k < i {
                            assert(cells@.take(i as int)[k] == cells@[k]);
                        }
                        assert(start.has(c.0, c.1));
                        if game.at(c.0, c.1).state == CellState::Hidden {
                            assert(game.hidden_at(c));
                            assert(game.hidden_spots().contains(c));
                            assert(before.hidden_spots().contains(c));
                            assert(before.hidden_at(c));
                            assert(c == (x as int, y as int));
                            if !before.mine_at(c.0, c.1) {
                                assert(before.opening_path(seq![c]));
                                assert(before.opened(c.0, c.1).contains(c));
                            }
                        }
                    }
                    if moves::fair(start) && no_mines(start, cells@) {
                        moves::law_moves_keep_a_board_fair(before, step, *game);
                        assert(!start.mine_at(cells@[i as int].0 as int, cells@[i as int].1 as int));
                        assert(before.at(x as int, y as int).content == start.at(
                            x as int,
                            y as int,
                        ).content);
                    }
                }
            }
        }
        proof {
            lemma_tried_on(games, cells@, i as int, *game);
            games = games.push(*game);
        }
    }
    assert(cells@.take(cells@.len() as int) =~= cells@);
    opened
}

/// Where flags were put, nothing is hidden.
proof fn lemma_flags_cover(before: Minesweeper, cells: Seq<(usize, usize)>, after: Minesweeper)
    requires
        flags_put(before, cells, after),
        on(before, cells),
    ensures
        none_hidden(after, cells),
{
    assert forall|i: int| 0 <= i < cells.len() implies after.at(
        (#[trigger] cells[i]).0 as int,
        cells[i].1 as int,
    ).state != CellState::Hidden by {
        assert(before.has(cells[i].0 as int, cells[i].1 as int));
        assert(cells.contains((cells[i].0, cells[i].1)));
    }
}

/// Flags those of the listed cells that are hidden; returns how many there were.
///
/// Only hidden ones: toggling would otherwise clear a flag that stands on the cell
/// already, undoing the deduction instead of recording it.
pub fn flag_all(game: &mut Minesweeper, cells: &Vec<(usize, usize)>) -> (flagged: usize)
    requires
        old(game).wf(),
        old(game).state == GameState::Playing,
        on(*old(game), cells@),
    ensures
        final(game).wf(),
        flags_put(*old(game), cells@, *final(game)),
        exists|moves: Seq<Move>| #[trigger]
            moves::leads(*old(game), moves, *final(game)) && flagged == moves.len()
                && moves::opens(moves) == 0 && only_flag(moves, cells@),
        none_hidden(*final(game), cells@),
        final(game).hidden_spots().len() <= old(game).hidden_spots().len(),
        moves::fair(*old(game)) ==> moves::fair(*final(game)),
{
    let ghost start = *game;
    let ghost mut moves: Seq<Move> = Seq::empty();
    let mut flagged: usize = 0;
    proof {
        moves::lemma_leads_nowhere(start);
    }
    for i in 0..cells.len()
        invariant
            start.wf(),
            start.state == GameState::Playing,
            on(start, cells@),
            game.wf(),
            flags_put(start, cells@.take(i as int), *game),
            moves::leads(start, moves, *game),
            flagged == moves.len(),
            moves::opens(moves) == 0,
            only_flag(moves, cells@),
            flagged <= i,
            game.hidden_spots().len() <= start.hidden_spots().len(),
            moves::fair(start) ==> moves::fair(*game),
    {
        let (x, y): (usize, usize) = cells[i];
        let ghost before = *game;
        proof {
            assert(start.has(cells@[i as int].0 as int, cells@[i as int].1 as int));
            let less = cells@.take(i as int);
            let more = cells@.take(i + 1);
            assert(more =~= less.push((x, y)));
            assert forall|p: (usize, usize)| #[trigger] more.contains(p) <==> less.contains(p) || p
                == (x, y) by {
                if less.contains(p) {
                    let k = choose|k: int| 0 <= k < less.len() && less[k] == p;
                    assert(more[k] == p);
                }
                assert(more[i as int] == (x, y));
            }
        }
        if game.grid[y][x].state == CellState::Hidden {
            let ghost step = Move::Flag(x, y);
            game.toggle_flag(x, y);
            flagged = flagged + 1;
            proof {
                assert(moves::made(before, step, *game));
                moves::lemma_leads_on(start, moves, before, step, *game);
                moves = moves.push(step);
                assert(cells@.contains((x, y))) by {
                    assert(cells@[i as int] == (x, y));
                }
                moves::lemma_fewer_hidden(before, step, *game);
                if moves::fair(start) {
                    moves::law_moves_keep_a_board_fair(before, step, *game);
                }
                assert forall|i0: int, j0: int| start.has(i0, j0) implies (
                #[trigger] game.at(i0, j0)).content == start.at(i0, j0).content by {
                    assert(before.at(i0, j0).content == start.at(i0, j0).content);
                }
                assert forall|i0: int, j0: int| start.has(i0, j0) implies (
                #[trigger] game.at(i0, j0)).state == if cells@.take(i + 1).contains(
                    (i0 as usize, j0 as usize),
                ) && start.at(i0, j0).state == CellState::Hidden {
                    CellState::Flagged
                } else {
                    start.at(i0, j0).state
                } by {
                    assert(before.at(i0, j0).state == before.at(i0, j0).state);
                    assert(before.has(i0, j0));
                }
            }
        }
    }
    proof {
        assert(cells@.take(cells@.len() as int) =~= cells@);
        lemma_flags_cover(start, cells@, *game);
    }
    flagged
}

// ---------------------------------------------------------------------------
// Proven cells
// ---------------------------------------------------------------------------

/// What propagation proves is true of a fair board.
proof fn lemma_proven_is_true(game: Minesweeper, cells: CertainCells)
    requires
        moves::fair(game),
        forall|layout: Set<(int, int)>, i: int| #[trigger]
            consistent::consistent(game).contains(layout) && 0 <= i < cells.mines@.len()
                ==> layout.contains(board::spot(#[trigger] cells.mines@[i])),
        forall|layout: Set<(int, int)>, i: int| #[trigger]
            consistent::consistent(game).contains(layout) && 0 <= i < cells.safe@.len()
                ==> !layout.contains(board::spot(#[trigger] cells.safe@[i])),
        forall|i: int|
            0 <= i < cells.safe@.len() ==> setup::is_unopened(game, #[trigger] cells.safe@[i]),
    ensures
        all_mines(game, cells.mines@),
        no_mines(game, cells.safe@),
{
    consistent::law_the_real_mines_are_consistent(game);
    let truth = consistent::hidden_mines(game);
    assert forall|i: int| 0 <= i < cells.mines@.len() implies game.mine_at(
        (#[trigger] cells.mines@[i]).0 as int,
        cells.mines@[i].1 as int,
    ) by {
        assert(truth.contains(board::spot(cells.mines@[i])));
    }
    assert forall|i: int| 0 <= i < cells.safe@.len() implies !game.mine_at(
        (#[trigger] cells.safe@[i]).0 as int,
        cells.safe@[i].1 as int,
    ) by {
        assert(!truth.contains(board::spot(cells.safe@[i])));
        assert(setup::is_unopened(game, cells.safe@[i]));
    }
}

/// What propagation proves is about cells of the board.
pub proof fn lemma_proven_on_board(game: Minesweeper)
    requires
        setup::unopened(game).len() <= usize::MAX,
    ensures
        on(game, probability::proven_safe(game)),
        on(game, probability::proven_mines(game)),
{
    let list = setup::unopened(game);
    let n = list.len() as usize;
    let known = setup::board_known(game);
    board::lemma_scan(setup::unopened_test(game), game.width, game.height);
    propagate::lemma_listed(known.mines, n);
    propagate::lemma_listed(known.safe, n);
    let safe = probability::proven_safe(game);
    let mines = probability::proven_mines(game);
    assert forall|i: int| 0 <= i < safe.len() implies game.has(
        (#[trigger] safe[i]).0 as int,
        safe[i].1 as int,
    ) by {
        assert(safe[i] == list[propagate::listed(known.safe, n as int)[i] as int]);
    }
    assert forall|i: int| 0 <= i < mines.len() implies game.has(
        (#[trigger] mines[i]).0 as int,
        mines[i].1 as int,
    ) by {
        assert(mines[i] == list[propagate::listed(known.mines, n as int)[i] as int]);
    }
}

/// The hidden cells of which an estimate says that they are never mines.
pub open spec fn unmined_test(game: Minesweeper, probs: Estimate) -> spec_fn(int, int) -> bool {
    |x: int, y: int| game.at(x, y).state == CellState::Hidden && probs.at(x, y) == 0
}

/// These cells, row by row.
pub open spec fn unmined(game: Minesweeper, probs: Estimate) -> Seq<(usize, usize)> {
    board::scan(unmined_test(game, probs), game.width as int, game.height as int)
}

/// The unopened cells of which an estimate says that they are always mines.
pub open spec fn mined_test(game: Minesweeper, probs: Estimate) -> spec_fn(int, int) -> bool {
    |x: int, y: int| game.at(x, y).state == CellState::Hidden && probs.at(x, y) == probs.total@
}

/// These cells, row by row.
pub open spec fn mined(game: Minesweeper, probs: Estimate) -> Seq<(usize, usize)> {
    board::scan(mined_test(game, probs), game.width as int, game.height as int)
}

/// Lists the hidden cells of which an estimate says that they are never, or always, mines.
pub fn list_certain(game: &Minesweeper, probs: &Estimate, always: bool) -> (cells: Vec<
    (usize, usize),
>)
    requires
        game.wf(),
        probs.wf(game.width as int, game.height as int),
    ensures
        cells@ == if always {
            mined(*game, *probs)
        } else {
            unmined(*game, *probs)
        },
        on(*game, cells@),
{
    let mut cells: Vec<(usize, usize)> = Vec::new();
    let ghost test = if always {
        mined_test(*game, *probs)
    } else {
        unmined_test(*game, *probs)
    };
    for y in 0..game.height
        invariant
            game.wf(),
            probs.wf(game.width as int, game.height as int),
            test == if always {
                mined_test(*game, *probs)
            } else {
                unmined_test(*game, *probs)
            },
            cells@ == board::scan(test, game.width as int, y as int),
    {
        let ghost above = cells@;
        for x in 0..game.width
            invariant
                game.wf(),
                probs.wf(game.width as int, game.height as int),
                y < game.height,
                test == if always {
                    mined_test(*game, *probs)
                } else {
                    unmined_test(*game, *probs)
                },
                cells@ == above + board::scan_row(test, y as int, x as int),
        {
            assert(probs.mines@[y as int]@.len() == game.width);
            assert(probs.mines@[y as int]@[x as int].wf());
            let weight: &BigNat = &probs.mines[y][x];
            let sure: bool = if always {
                weight.equals(&probs.total)
            } else {
                weight.is_zero()
            };
            if game.grid[y][x].state == CellState::Hidden && sure {
                cells.push((x, y));
            }
            assert(cells@ =~= above + board::scan_row(test, y as int, x + 1));
        }
    }
    proof {
        board::lemma_scan(test, game.width, game.height);
    }
    cells
}

/// What an exact estimate calls certain is true of a fair board: an unopened cell that it
/// calls never mined is not a mine, and one that it calls always mined is one.
pub proof fn law_exact_certainty_is_true(game: Minesweeper, probs: Estimate, x: int, y: int)
    requires
        moves::fair(game),
        setup::unopened(game).len() <= usize::MAX,
        ConstraintSearch::exact(game, probs),
        game.has(x, y),
        game.at(x, y).state != CellState::Visible,
    ensures
        probs.at(x, y) == 0 ==> !game.mine_at(x, y),
        probs.at(x, y) == probs.total@ ==> game.mine_at(x, y),
{
    consistent::law_the_real_mines_are_consistent(game);
    let truth = consistent::hidden_mines(game);
    assert(consistent::consistent(game).contains(truth));
    assert(probs.at(x, y) == consistent::consistent_with_mine(game, (x, y)).len());
    consistent::law_certainty_is_exact(game, (x, y));
}

/// What an exact estimate calls certain is proven by what the board shows.
pub proof fn lemma_exact_is_proof(game: Minesweeper, probs: Estimate)
    requires
        game.wf(),
        setup::unopened(game).len() <= usize::MAX,
        trusted(game, probs, true),
    ensures
        all_safe(game, unmined(game, probs)),
        all_mined(game, mined(game, probs)),
{
    board::lemma_scan(unmined_test(game, probs), game.width, game.height);
    board::lemma_scan(mined_test(game, probs), game.width, game.height);
    let never = unmined(game, probs);
    assert forall|i: int| 0 <= i < never.len() implies surely_safe(
        game,
        board::spot(#[trigger] never[i]),
    ) by {
        let p = board::spot(never[i]);
        assert(unmined_test(game, probs)(p.0, p.1));
        assert forall|m: Set<(int, int)>| #[trigger]
            consistent::consistent(game).contains(m) implies !m.contains(p) by {
            assert(consistent::possible(game));
            assert(probs.at(p.0, p.1) == consistent::consistent_with_mine(game, p).len());
            consistent::law_certainty_is_exact(game, p);
        }
    }
    let always = mined(game, probs);
    assert forall|i: int| 0 <= i < always.len() implies surely_mined(
        game,
        board::spot(#[trigger] always[i]),
    ) by {
        let p = board::spot(always[i]);
        assert(mined_test(game, probs)(p.0, p.1));
        assert forall|m: Set<(int, int)>| #[trigger]
            consistent::consistent(game).contains(m) implies m.contains(p) by {
            assert(consistent::possible(game));
            assert(probs.at(p.0, p.1) == consistent::consistent_with_mine(game, p).len());
            consistent::law_certainty_is_exact(game, p);
        }
    }
}

/// So are the cells that are listed for it, though flags may have been put since.
pub proof fn lemma_exact_is_true(start: Minesweeper, game: Minesweeper, probs: Estimate)
    requires
        moves::fair(game),
        setup::unopened(start).len() <= usize::MAX,
        setup::shows_the_same(start, game),
        trusted(start, probs, true),
    ensures
        no_mines(game, unmined(game, probs)),
        all_mines(game, mined(game, probs)),
{
    consistent::law_the_real_mines_are_consistent(game);
    setup::law_flags_do_not_change_the_problem(start, game);
    lemma_trusted_same(start, game, probs, true);
    assert(consistent::possible(game)) by {
        assert(consistent::consistent(game).contains(consistent::hidden_mines(game)));
    }
    board::lemma_scan(unmined_test(game, probs), game.width, game.height);
    board::lemma_scan(mined_test(game, probs), game.width, game.height);
    let never = unmined(game, probs);
    assert forall|i: int| 0 <= i < never.len() implies !game.mine_at(
        (#[trigger] never[i]).0 as int,
        never[i].1 as int,
    ) by {
        let p = (never[i].0 as int, never[i].1 as int);
        assert(unmined_test(game, probs)(p.0, p.1));
        law_exact_certainty_is_true(game, probs, p.0, p.1);
    }
    let always = mined(game, probs);
    assert forall|i: int| 0 <= i < always.len() implies game.mine_at(
        (#[trigger] always[i]).0 as int,
        always[i].1 as int,
    ) by {
        let p = (always[i].0 as int, always[i].1 as int);
        assert(mined_test(game, probs)(p.0, p.1));
        law_exact_certainty_is_true(game, probs, p.0, p.1);
    }
}

/// Whether every flag that was put since is on a mine.
pub open spec fn flags_right(before: Minesweeper, after: Minesweeper) -> bool {
    forall|x: int, y: int|
        before.has(x, y) && (#[trigger] after.at(x, y)).state == CellState::Flagged && before.at(
            x,
            y,
        ).state != CellState::Flagged ==> before.mine_at(x, y)
}

/// Whether propagation has run dry: what it proves is opened or flagged.
pub open spec fn dry(game: Minesweeper) -> bool {
    &&& none_hidden(game, probability::proven_safe(game))
    &&& none_hidden(game, probability::proven_mines(game))
}

/// Where nothing proven safe is hidden, flagging what is proven to be a mine leaves
/// propagation dry.
proof fn lemma_dry(before: Minesweeper, after: Minesweeper)
    requires
        before.wf(),
        none_hidden(before, probability::proven_safe(before)),
        on(before, probability::proven_mines(before)),
        on(before, probability::proven_safe(before)),
        flags_put(before, probability::proven_mines(before), after),
    ensures
        dry(after),
        setup::shows_the_same(before, after),
{
    let safe = probability::proven_safe(before);
    assert forall|i: int| 0 <= i < safe.len() implies after.at(
        (#[trigger] safe[i]).0 as int,
        safe[i].1 as int,
    ).state != CellState::Hidden by {
        assert(before.has(safe[i].0 as int, safe[i].1 as int));
        assert(before.at(safe[i].0 as int, safe[i].1 as int).state != CellState::Hidden);
    }
    lemma_flagged_dry(before, after);
}

pub proof fn lemma_flags_show_the_same(
    before: Minesweeper,
    cells: Seq<(usize, usize)>,
    after: Minesweeper,
)
    requires
        flags_put(before, cells, after),
    ensures
        setup::shows_the_same(before, after),
{
    assert forall|x: int, y: int| before.has(x, y) implies (#[trigger] before.at(x, y)).content
        == after.at(x, y).content && (before.at(x, y).state == CellState::Visible <==> after.at(
        x,
        y,
    ).state == CellState::Visible) by {
        assert(after.at(x, y).content == before.at(x, y).content);
    }
}

/// Opening cells puts no flag.
proof fn lemma_opening_keeps_flags_right(
    start: Minesweeper,
    games: Seq<Minesweeper>,
    moves: Seq<Move>,
)
    requires
        moves::played(games, moves),
        forall|i: int| 0 <= i < moves.len() ==> (#[trigger] moves[i]) is Open,
        flags_right(start, games[0]),
        games[0].same_frame(start),
    ensures
        flags_right(start, games.last()),
    decreases moves.len(),
{
    if moves.len() > 0 {
        let fewer = games.drop_last();
        let less = moves.drop_last();
        assert forall|i: int| 0 <= i < less.len() implies moves::made(
            fewer[i],
            #[trigger] less[i],
            fewer[i + 1],
        ) by {
            assert(less[i] == moves[i]);
        }
        assert forall|i: int| 0 <= i < less.len() implies (#[trigger] less[i]) is Open by {
            assert(less[i] == moves[i]);
        }
        lemma_opening_keeps_flags_right(start, fewer, less);
        moves::lemma_same_size(fewer, less);
        let k = moves.len() - 1;
        let a = games[k];
        let b = games[k + 1];
        assert(moves::made(a, moves[k], b));
        assert forall|x: int, y: int|
            start.has(x, y) && (#[trigger] b.at(x, y)).state == CellState::Flagged && start.at(
                x,
                y,
            ).state != CellState::Flagged implies start.mine_at(x, y) by {
            assert(a.has(x, y));
            assert(a.at(x, y).state == CellState::Flagged);
        }
    }
}

/// Where nothing proven safe is hidden once what is proven to be a mine is flagged,
/// propagation is dry.
proof fn lemma_flagged_dry(before: Minesweeper, after: Minesweeper)
    requires
        before.wf(),
        on(before, probability::proven_mines(before)),
        flags_put(before, probability::proven_mines(before), after),
        none_hidden(after, probability::proven_safe(before)),
    ensures
        dry(after),
        setup::shows_the_same(before, after),
{
    lemma_flags_show_the_same(before, probability::proven_mines(before), after);
    setup::law_flags_do_not_change_the_problem(before, after);
    let mines = probability::proven_mines(before);
    assert forall|i: int| 0 <= i < mines.len() implies after.at(
        (#[trigger] mines[i]).0 as int,
        mines[i].1 as int,
    ).state != CellState::Hidden by {
        assert(before.has(mines[i].0 as int, mines[i].1 as int));
        assert(mines.contains((mines[i].0, mines[i].1)));
    }
}

/// Opens what is proven safe, then flags what is proven to be a mine if the game goes on.
fn open_then_flag(game: &mut Minesweeper, proven: &CertainCells) -> (opened: usize)
    requires
        old(game).wf(),
        old(game).mines_generated,
        old(game).state == GameState::Playing,
        proven.safe@ == probability::proven_safe(*old(game)),
        proven.mines@ == probability::proven_mines(*old(game)),
        on(*old(game), proven.safe@),
        on(*old(game), proven.mines@),
        all_safe(*old(game), proven.safe@),
        all_mined(*old(game), proven.mines@),
        moves::fair(*old(game)) ==> no_mines(*old(game), proven.safe@) && all_mines(
            *old(game),
            proven.mines@,
        ),
    ensures
        proven_round(*old(game), false, *final(game), opened as nat),
        opened == 0 <==> none_hidden(*old(game), proven.safe@),
        opened == 0 ==> flags_put(*old(game), proven.mines@, *final(game)),
        final(game).wf(),
        final(game).same_frame(*old(game)),
        final(game).mines_generated,
        final(game).same_contents(*old(game)),
        exists|moves: Seq<Move>| #[trigger]
            leads_on_proof(*old(game), moves, *final(game)) && opened == moves::opens(moves),
        opened <= proven.safe@.len(),
        final(game).hidden_spots().len() <= old(game).hidden_spots().len(),
        opened > 0 ==> final(game).hidden_spots().len() < old(game).hidden_spots().len(),
        opened == 0 ==> {
            &&& dry(*final(game))
            &&& setup::shows_the_same(*old(game), *final(game))
            &&& final(game).state == GameState::Playing
            &&& forall|x: int, y: int|
                old(game).has(x, y) && (#[trigger] final(game).at(x, y)).state == CellState::Hidden
                    ==> old(game).at(x, y).state == CellState::Hidden
        },
        moves::fair(*old(game)) ==> {
            &&& moves::fair(*final(game))
            &&& final(game).state != GameState::Lost
            &&& flags_right(*old(game), *final(game))
        },
{
    let ghost start = *game;
    let opened: usize = reveal_all(game, &proven.safe);
    let ghost middle = *game;
    let ghost first = choose|moves: Seq<Move>|
        {
            &&& #[trigger] moves::leads(start, moves, middle)
            &&& only_open(moves, proven.safe@)
            &&& opened == moves.len()
            &&& opened == moves::opens(moves)
        };
    proof {
        let games = choose|games: Seq<Minesweeper>| #[trigger]
            moves::played(games, first) && games[0] == start && games.last() == middle;
        lemma_opening_keeps_flags_right(start, games, first);
        assert(on(middle, proven.mines@)) by {
            assert forall|i: int| 0 <= i < proven.mines@.len() implies middle.has(
                (#[trigger] proven.mines@[i]).0 as int,
                proven.mines@[i].1 as int,
            ) by {
                assert(start.has(proven.mines@[i].0 as int, proven.mines@[i].1 as int));
            }
        }
    }
    proof {
        if middle.state != GameState::Playing {
            lemma_proven_at_once(start, first, middle, proven.mines@, proven.safe@);
        }
    }
    if game.state == GameState::Playing {
        let _: usize = flag_all(game, &proven.mines);
        proof {
            let second = choose|moves: Seq<Move>| #[trigger]
                moves::leads(middle, moves, *game) && moves::opens(moves) == 0 && only_flag(
                    moves,
                    proven.mines@,
                );
            moves::lemma_leads_through(start, first, middle, second, *game);
            let all = first + second;
            assert forall|i: int| 0 <= i < all.len() implies among(
                #[trigger] all[i],
                proven.mines@,
                proven.safe@,
            ) by {
                if i < first.len() {
                    assert(all[i] == first[i]);
                } else {
                    assert(all[i] == second[i - first.len()]);
                }
            }
            lemma_proven_at_once(start, all, *game, proven.mines@, proven.safe@);
            assert forall|x: int, y: int| start.has(x, y) implies (#[trigger] game.at(x, y)).content
                == start.at(x, y).content by {
                assert(middle.at(x, y).content == start.at(x, y).content);
            }
            if opened == 0 {
                lemma_dry(start, *game);
            }
            if moves::fair(start) {
                assert forall|x: int, y: int|
                    start.has(x, y) && (#[trigger] game.at(x, y)).state == CellState::Flagged
                        && start.at(x, y).state != CellState::Flagged implies start.mine_at(
                    x,
                    y,
                ) by {
                    assert(middle.has(x, y));
                    if middle.at(x, y).state != CellState::Flagged {
                        let p = (x as usize, y as usize);
                        assert(proven.mines@.contains(p));
                        let i = choose|i: int|
                            0 <= i < proven.mines@.len() && proven.mines@[i] == p;
                        assert(start.mine_at(
                            proven.mines@[i].0 as int,
                            proven.mines@[i].1 as int,
                        ));
                    }
                }
            }
        }
    }
    opened
}

/// Flags some cells, then opens others. Returns how many it opened.
pub fn flag_then_open(
    game: &mut Minesweeper,
    mines: &Vec<(usize, usize)>,
    safe: &Vec<(usize, usize)>,
) -> (opened: usize)
    requires
        old(game).wf(),
        old(game).mines_generated,
        old(game).state == GameState::Playing,
        on(*old(game), safe@),
        on(*old(game), mines@),
    ensures
        final(game).wf(),
        final(game).same_frame(*old(game)),
        final(game).mines_generated,
        final(game).same_contents(*old(game)),
        flagged_then_opened(*old(game), mines@, safe@, *final(game), opened as nat),
        exists|moves: Seq<Move>| #[trigger]
            moves::leads(*old(game), moves, *final(game)) && opened == moves::opens(moves)
                && only_these(moves, mines@, safe@),
        opened <= safe@.len(),
        none_hidden(*final(game), mines@),
        final(game).state == GameState::Playing ==> none_hidden(*final(game), safe@),
        final(game).hidden_spots().len() <= old(game).hidden_spots().len(),
        opened > 0 ==> final(game).hidden_spots().len() < old(game).hidden_spots().len(),
        opened == 0 ==> flags_put(*old(game), mines@, *final(game)) && none_hidden(
            *final(game),
            safe@,
        ),
        moves::fair(*old(game)) && no_mines(*old(game), safe@) && all_mines(*old(game), mines@) ==> {
            &&& moves::fair(*final(game))
            &&& final(game).state != GameState::Lost
            &&& flags_right(*old(game), *final(game))
        },
{
    let ghost start = *game;
    let ghost sound = moves::fair(start) && no_mines(start, safe@) && all_mines(start, mines@);
    let _: usize = flag_all(game, mines);
    let ghost middle = *game;
    let ghost first = choose|moves: Seq<Move>| #[trigger]
        moves::leads(start, moves, middle) && moves::opens(moves) == 0 && only_flag(moves, mines@);
    proof {
        assert(on(middle, safe@)) by {
            assert forall|i: int| 0 <= i < safe@.len() implies middle.has(
                (#[trigger] safe@[i]).0 as int,
                safe@[i].1 as int,
            ) by {
                assert(start.has(safe@[i].0 as int, safe@[i].1 as int));
            }
        }
        if sound {
            assert(no_mines(middle, safe@)) by {
                assert forall|i: int| 0 <= i < safe@.len() implies !middle.mine_at(
                    (#[trigger] safe@[i]).0 as int,
                    safe@[i].1 as int,
                ) by {
                    let p = (safe@[i].0 as int, safe@[i].1 as int);
                    assert(start.has(p.0, p.1));
                    assert(!start.mine_at(p.0, p.1));
                    assert(middle.at(p.0, p.1).content == start.at(p.0, p.1).content);
                }
            }
            assert(flags_right(start, middle)) by {
                assert forall|x: int, y: int|
                    start.has(x, y) && (#[trigger] middle.at(x, y)).state == CellState::Flagged
                        && start.at(x, y).state != CellState::Flagged implies start.mine_at(
                    x,
                    y,
                ) by {
                    let p = (x as usize, y as usize);
                    assert(mines@.contains(p));
                    let i = choose|i: int| 0 <= i < mines@.len() && mines@[i] == p;
                    assert(start.mine_at(mines@[i].0 as int, mines@[i].1 as int));
                }
            }
        }
    }
    let opened: usize = reveal_all(game, safe);
    proof {
        let second = choose|moves: Seq<Move>|
            {
                &&& #[trigger] moves::leads(middle, moves, *game)
                &&& only_open(moves, safe@)
                &&& opened == moves.len()
                &&& opened == moves::opens(moves)
            };
        moves::lemma_leads_through(start, first, middle, second, *game);
        assert(on(middle, mines@)) by {
            assert forall|i: int| 0 <= i < mines@.len() implies middle.has(
                (#[trigger] mines@[i]).0 as int,
                mines@[i].1 as int,
            ) by {
                assert(start.has(mines@[i].0 as int, mines@[i].1 as int));
            }
        }
        lemma_stay_unhidden(middle, second, *game, mines@);
        let all = first + second;
        assert forall|i: int| 0 <= i < all.len() implies among(
            #[trigger] all[i],
            mines@,
            safe@,
        ) by {
            if i < first.len() {
                assert(all[i] == first[i]);
            } else {
                assert(all[i] == second[i - first.len()]);
            }
        }
        let games = choose|games: Seq<Minesweeper>| #[trigger]
            moves::played(games, second) && games[0] == middle && games.last() == *game;
        if sound {
            lemma_opening_keeps_flags_right(start, games, second);
        }
        assert forall|x: int, y: int| start.has(x, y) implies (#[trigger] game.at(x, y)).content
            == start.at(x, y).content by {
            assert(middle.at(x, y).content == start.at(x, y).content);
        }
    }
    opened
}

/// Where nothing of what is to be opened is hidden, nothing is opened.
proof fn lemma_nothing_to_open(
    before: Minesweeper,
    mines: Seq<(usize, usize)>,
    safe: Seq<(usize, usize)>,
    after: Minesweeper,
    opened: nat,
)
    requires
        on(before, safe),
        none_hidden(before, safe),
        flagged_then_opened(before, mines, safe, after, opened),
    ensures
        opened == 0,
{
    let middle = choose|middle: Minesweeper| #[trigger]
        flags_put(before, mines, middle) && opened_in_turn(middle, safe, after, opened);
    assert forall|i: int| 0 <= i < safe.len() implies middle.at(
        (#[trigger] safe[i]).0 as int,
        safe[i].1 as int,
    ).state != CellState::Hidden by {
        assert(before.has(safe[i].0 as int, safe[i].1 as int));
        assert(before.at(safe[i].0 as int, safe[i].1 as int).state != CellState::Hidden);
    }
    let games = choose|games: Seq<Minesweeper>|
        {
            &&& #[trigger] tried(games, safe)
            &&& games[0] == middle
            &&& games.last() == after
            &&& hits(games, safe, safe.len()) == opened
        };
    lemma_no_hits(games, safe, safe.len());
}

proof fn lemma_no_hits(games: Seq<Minesweeper>, cells: Seq<(usize, usize)>, k: nat)
    requires
        tried(games, cells),
        k <= cells.len(),
        none_hidden(games[0], cells),
    ensures
        games[k as int] == games[0],
        hits(games, cells, k) == 0,
    decreases k,
{
    if k > 0 {
        lemma_no_hits(games, cells, (k - 1) as nat);
        assert(tried_one(games[k - 1], cells[k - 1], games[k - 1 + 1]));
    }
}

/// Flags on mines hide no safe cell that was not hidden before.
proof fn lemma_flags_spare_the_safe(
    before: Minesweeper,
    mines: Seq<(usize, usize)>,
    safe: Seq<(usize, usize)>,
    after: Minesweeper,
)
    requires
        flags_put(before, mines, after),
        on(before, safe),
        no_mines(before, safe),
        all_mines(before, mines),
        none_hidden(after, safe),
    ensures
        none_hidden(before, safe),
{
    assert forall|i: int| 0 <= i < safe.len() implies before.at(
        (#[trigger] safe[i]).0 as int,
        safe[i].1 as int,
    ).state != CellState::Hidden by {
        let p = safe[i];
        assert(before.has(p.0 as int, p.1 as int));
        assert(after.at(p.0 as int, p.1 as int).state != CellState::Hidden);
        if mines.contains(p) {
            let k = choose|k: int| 0 <= k < mines.len() && mines[k] == p;
            assert(before.mine_at(mines[k].0 as int, mines[k].1 as int));
        }
    }
}

/// One round of what propagation proves: opens the safe cells and flags the mines, in
/// either order. Returns how many cells it opened.
pub(crate) fn play_proven(game: &mut Minesweeper, flags_first: bool) -> (opened: usize)
    requires
        old(game).wf(),
        old(game).mines_generated,
        old(game).state == GameState::Playing,
    ensures
        final(game).wf(),
        final(game).same_frame(*old(game)),
        final(game).mines_generated,
        final(game).same_contents(*old(game)),
        setup::unopened(*old(game)).len() <= usize::MAX,
        proven_round(*old(game), flags_first, *final(game), opened as nat),
        exists|moves: Seq<Move>| #[trigger]
            leads_on_proof(*old(game), moves, *final(game)) && opened == moves::opens(moves),
        none_hidden(*old(game), probability::proven_safe(*old(game))) ==> opened == 0,
        opened == 0 && (!flags_first || moves::fair(*old(game))) ==> none_hidden(
            *old(game),
            probability::proven_safe(*old(game)),
        ),
        opened == 0 ==> flags_put(
            *old(game),
            probability::proven_mines(*old(game)),
            *final(game),
        ),
        opened <= old(game).width * old(game).height,
        final(game).hidden_spots().len() <= old(game).hidden_spots().len(),
        opened > 0 ==> final(game).hidden_spots().len() < old(game).hidden_spots().len(),
        opened == 0 ==> {
            &&& dry(*final(game))
            &&& setup::shows_the_same(*old(game), *final(game))
            &&& final(game).state == GameState::Playing
            &&& forall|x: int, y: int|
                old(game).has(x, y) && (#[trigger] final(game).at(x, y)).state == CellState::Hidden
                    ==> old(game).at(x, y).state == CellState::Hidden
        },
        moves::fair(*old(game)) ==> {
            &&& moves::fair(*final(game))
            &&& final(game).state != GameState::Lost
            &&& flags_right(*old(game), *final(game))
        },
{
    let ghost start = *game;
    let proven: CertainCells = probability::certain_cells(game);
    proof {
        assert(on(start, proven.safe@)) by {
            assert forall|i: int| 0 <= i < proven.safe@.len() implies start.has(
                (#[trigger] proven.safe@[i]).0 as int,
                proven.safe@[i].1 as int,
            ) by {
                assert(setup::is_unopened(start, proven.safe@[i]));
            }
        }
        assert(on(start, proven.mines@)) by {
            assert forall|i: int| 0 <= i < proven.mines@.len() implies start.has(
                (#[trigger] proven.mines@[i]).0 as int,
                proven.mines@[i].1 as int,
            ) by {
                assert(setup::is_unopened(start, proven.mines@[i]));
            }
        }
        if moves::fair(start) {
            lemma_proven_is_true(start, proven);
        }
        board::lemma_scan_bound(
            setup::unopened_test(start),
            start.width as int,
            start.height as int,
        );
    }
    proof {
        assert(all_safe(start, proven.safe@));
        assert(all_mined(start, proven.mines@));
    }
    if flags_first {
        let opened: usize = flag_then_open(game, &proven.mines, &proven.safe);
        proof {
            let moves = choose|moves: Seq<Move>| #[trigger]
                moves::leads(start, moves, *game) && opened == moves::opens(moves) && only_these(
                    moves,
                    proven.mines@,
                    proven.safe@,
                );
            lemma_proven_at_once(start, moves, *game, proven.mines@, proven.safe@);
            if none_hidden(start, proven.safe@) {
                lemma_nothing_to_open(start, proven.mines@, proven.safe@, *game, opened as nat);
            }
            if opened == 0 {
                lemma_flagged_dry(start, *game);
                if moves::fair(start) {
                    lemma_flags_spare_the_safe(start, proven.mines@, proven.safe@, *game);
                }
            }
        }
        opened
    } else {
        open_then_flag(game, &proven)
    }
}

/// Flags leave propagation dry.
pub proof fn lemma_flags_keep_dry(
    before: Minesweeper,
    cells: Seq<(usize, usize)>,
    after: Minesweeper,
)
    requires
        before.wf(),
        dry(before),
        flags_put(before, cells, after),
        on(before, probability::proven_safe(before)),
        on(before, probability::proven_mines(before)),
    ensures
        dry(after),
{
    lemma_flags_show_the_same(before, cells, after);
    setup::law_flags_do_not_change_the_problem(before, after);
    let safe = probability::proven_safe(before);
    let mines = probability::proven_mines(before);
    assert forall|i: int| 0 <= i < safe.len() implies after.at(
        (#[trigger] safe[i]).0 as int,
        safe[i].1 as int,
    ).state != CellState::Hidden by {
        assert(before.has(safe[i].0 as int, safe[i].1 as int));
        assert(before.at(safe[i].0 as int, safe[i].1 as int).state != CellState::Hidden);
    }
    assert forall|i: int| 0 <= i < mines.len() implies after.at(
        (#[trigger] mines[i]).0 as int,
        mines[i].1 as int,
    ).state != CellState::Hidden by {
        assert(before.has(mines[i].0 as int, mines[i].1 as int));
        assert(before.at(mines[i].0 as int, mines[i].1 as int).state != CellState::Hidden);
    }
}

/// Going on from where moves have led.
pub proof fn lemma_go_on(
    start: Minesweeper,
    moves: Seq<Move>,
    before: Minesweeper,
    next: Seq<Move>,
    after: Minesweeper,
)
    requires
        moves::leads(start, moves, before),
        moves::leads(before, next, after),
        before.same_frame(start),
        before.same_contents(start),
        after.same_contents(before),
        flags_right(start, before),
        flags_right(before, after),
    ensures
        moves::leads(start, moves + next, after),
        moves::opens(moves + next) == moves::opens(moves) + moves::opens(next),
        after.same_contents(start),
        flags_right(start, after),
{
    moves::lemma_leads_through(start, moves, before, next, after);
    assert forall|x: int, y: int| start.has(x, y) implies (#[trigger] after.at(x, y)).content
        == start.at(x, y).content by {
        assert(before.has(x, y));
        assert(before.at(x, y).content == start.at(x, y).content);
    }
    assert forall|x: int, y: int|
        start.has(x, y) && (#[trigger] after.at(x, y)).state == CellState::Flagged && start.at(
            x,
            y,
        ).state != CellState::Flagged implies start.mine_at(x, y) by {
        assert(before.has(x, y));
        assert(before.at(x, y).content == start.at(x, y).content);
        if before.at(x, y).state != CellState::Flagged {
            assert(before.mine_at(x, y));
        }
    }
}

/// What may be relied on when cells are opened by an estimate: nothing unless it is said
/// to be exact, and then that it is, wherever the numbers do not contradict each other.
pub open spec fn trusted(game: Minesweeper, probs: Estimate, exact: bool) -> bool {
    exact && consistent::possible(game) ==> ConstraintSearch::exact(game, probs)
}

/// What may be relied on stays so where only flags differ.
pub proof fn lemma_trusted_same(a: Minesweeper, b: Minesweeper, probs: Estimate, exact: bool)
    requires
        setup::shows_the_same(a, b),
        trusted(a, probs, exact),
    ensures
        trusted(b, probs, exact),
{
    consistent::lemma_shows_the_same(a, b);
    if exact && consistent::possible(b) {
        let m = choose|m: Set<(int, int)>| #[trigger] consistent::consistent(b).contains(m);
        assert(consistent::consistent(a).contains(m));
        assert forall|x: int, y: int| b.has(x, y) implies #[trigger] probs.at(x, y)
            == consistent::consistent_with_mine(b, (x, y)).len() by {
            assert(a.has(x, y));
        }
    }
}

/// The first round.
proof fn lemma_first_round(before: Minesweeper, after: Minesweeper)
    requires
        next_round(before, after, true),
    ensures
        rounds(seq![before, after]),
{
    reveal(rounds);
}

/// One more round.
proof fn lemma_rounds_on(games: Seq<Minesweeper>, after: Minesweeper)
    requires
        rounds(games),
        next_round(games[games.len() - 2], games.last(), false),
        next_round(games.last(), after, true),
    ensures
        rounds(games.push(after)),
{
    reveal(rounds);
    let all = games.push(after);
    assert forall|i: int| #![trigger all[i]] 0 <= i < all.len() - 1 implies next_round(
        all[i],
        all[i + 1],
        i == all.len() - 2,
    ) by {
        if i < games.len() - 1 {
            assert(next_round(games[i], games[i + 1], i == games.len() - 2));
        }
    }
}

/// Plays what propagation proves, round by round, until it runs dry. Returns whether any
/// cell was opened.
fn play_until_dry(game: &mut Minesweeper) -> (any: bool)
    requires
        old(game).wf(),
        old(game).mines_generated,
        old(game).state == GameState::Playing,
    ensures
        final(game).wf(),
        final(game).same_frame(*old(game)),
        final(game).mines_generated,
        final(game).same_contents(*old(game)),
        setup::unopened(*old(game)).len() <= usize::MAX,
        played_dry(*old(game), *final(game)),
        exists|moves: Seq<Move>| #[trigger]
            leads_on_proof(*old(game), moves, *final(game)) && any == (moves::opens(moves) > 0),
        any <==> !none_hidden(*old(game), probability::proven_safe(*old(game))),
        !any ==> flags_put(*old(game), probability::proven_mines(*old(game)), *final(game)),
        any ==> final(game).hidden_spots().len() < old(game).hidden_spots().len(),
        !any ==> setup::shows_the_same(*old(game), *final(game)) && final(game).state
            == GameState::Playing,
        final(game).state == GameState::Playing ==> dry(*final(game)),
        moves::fair(*old(game)) ==> {
            &&& moves::fair(*final(game))
            &&& final(game).state != GameState::Lost
            &&& flags_right(*old(game), *final(game))
        },
{
    let ghost start = *game;
    let ghost mut moves: Seq<Move> = Seq::empty();
    let first: usize = play_proven(game, false);
    let ghost mut games: Seq<Minesweeper> = seq![start, *game];
    proof {
        moves = choose|moves: Seq<Move>| #[trigger]
            leads_on_proof(start, moves, *game) && first == moves::opens(moves);
        assert(proven_round(start, false, *game, first as nat));
        assert(next_round(start, *game, true));
        assert(first > 0 ==> next_round(start, *game, false));
        lemma_first_round(start, *game);
    }
    let mut any: bool = first > 0;
    let mut more: bool = any;
    while more && game.state == GameState::Playing
        invariant
            start.wf(),
            game.wf(),
            game.same_frame(start),
            game.mines_generated,
            game.same_contents(start),
            rounds(games),
            games.len() >= 2,
            games[0] == start,
            games.last() == *game,
            more ==> next_round(games[games.len() - 2], *game, false),
            !more ==> proven_round(games[games.len() - 2], false, *game, 0),
            leads_on_proof(start, moves, *game),
            any == (moves::opens(moves) > 0),
            more ==> any,
            !any ==> flags_put(start, probability::proven_mines(start), *game),
            any ==> game.hidden_spots().len() < start.hidden_spots().len(),
            !any ==> setup::shows_the_same(start, *game) && game.state == GameState::Playing,
            !more && game.state == GameState::Playing ==> dry(*game),
            moves::fair(start) ==> {
                &&& moves::fair(*game)
                &&& game.state != GameState::Lost
                &&& flags_right(start, *game)
            },
        decreases
                game.hidden_spots().len(),
                (if more {
                    1int
                } else {
                    0int
                }),
    {
        let ghost before = *game;
        let opened: usize = play_proven(game, false);
        proof {
            let next = choose|next: Seq<Move>| #[trigger]
                leads_on_proof(before, next, *game) && opened == moves::opens(next);
            lemma_on_proof_through(start, moves, before, next, *game);
            moves = moves + next;
            assert(proven_round(before, false, *game, opened as nat));
            assert(next_round(before, *game, true));
            lemma_rounds_on(games, *game);
            games = games.push(*game);
            assert forall|x: int, y: int| start.has(x, y) implies (#[trigger] game.at(x, y)).content
                == start.at(x, y).content by {
                assert(before.at(x, y).content == start.at(x, y).content);
            }
            if moves::fair(start) {
                assert forall|x: int, y: int|
                    start.has(x, y) && (#[trigger] game.at(x, y)).state == CellState::Flagged
                        && start.at(x, y).state != CellState::Flagged implies start.mine_at(
                    x,
                    y,
                ) by {
                    assert(before.has(x, y));
                    assert(before.at(x, y).content == start.at(x, y).content);
                    if before.at(x, y).state != CellState::Flagged {
                        assert(before.mine_at(x, y));
                    }
                }
            }
        }
        more = opened > 0;
    }
    any
}

/// What is opened by an estimate once propagation is dry: where propagation opened
/// nothing and the estimate is exact, the cells it calls never mined; otherwise nothing.
/// `any` says whether any cell was opened since the start.
pub open spec fn opened_by_estimate(
    start: Minesweeper,
    dried: Minesweeper,
    probs: Estimate,
    exact: bool,
    after: Minesweeper,
    any: bool,
) -> bool {
    if !none_hidden(start, probability::proven_safe(start)) {
        any && after == dried
    } else {
        &&& flags_put(start, probability::proven_mines(start), dried)
        &&& dry(dried)
        &&& any <==> exact && unmined(dried, probs).len() > 0
        &&& if exact {
            exists|opened: nat| #[trigger]
                opened_in_turn(dried, unmined(dried, probs), after, opened)
        } else {
            after == dried
        }
        &&& exact && after.state == GameState::Playing ==> none_hidden(
            after,
            unmined(dried, probs),
        )
    }
}

/// Whether a board comes of playing what can be proven on another one, given an estimate.
/// Nothing happens once the game is over, nor before the mines are placed.
pub open spec fn auto_revealed(
    before: Minesweeper,
    probs: Estimate,
    exact: bool,
    after: Minesweeper,
    any: bool,
) -> bool {
    if before.state != GameState::Playing || !before.mines_generated {
        !any && after == before
    } else {
        exists|dried: Minesweeper| #[trigger]
            played_dry(before, dried) && opened_by_estimate(
                before,
                dried,
                probs,
                exact,
                after,
                any,
            )
    }
}

/// Opens every cell that can be proven safe, and flags every cell proven to be a mine.
/// Returns whether anything was opened.
///
/// Goes round by round on propagation, which proves what local rules can with no search
/// at all, and consults the estimate only where propagation opens nothing. Of that only
/// an exact one: a sampled zero means only that no draw happened to put a mine there, so
/// it is never grounds for opening a cell.
pub fn apply_auto_reveal(game: &mut Minesweeper, probs: &Estimate, probs_are_exact: bool) -> (any:
    bool)
    requires
        old(game).wf(),
        probs.wf(old(game).width as int, old(game).height as int),
    ensures
        final(game).wf(),
        auto_revealed(*old(game), *probs, probs_are_exact, *final(game), any),
        old(game).state == GameState::Playing && old(game).mines_generated ==> {
            &&& final(game).same_frame(*old(game))
            &&& final(game).mines_generated
            &&& final(game).same_contents(*old(game))
            &&& exists|moves: Seq<Move>| #[trigger]
                moves::leads(*old(game), moves, *final(game)) && any == (moves::opens(moves) > 0)
                    && (trusted(*old(game), *probs, probs_are_exact) ==> leads_on_proof(
                    *old(game),
                    moves,
                    *final(game),
                ))
            &&& !none_hidden(*old(game), probability::proven_safe(*old(game))) ==> {
                &&& any
                &&& final(game).state == GameState::Playing ==> dry(*final(game))
            }
            &&& any ==> final(game).hidden_spots().len() < old(game).hidden_spots().len()
            &&& !any ==> {
                &&& final(game).state == GameState::Playing
                &&& setup::shows_the_same(*old(game), *final(game))
                &&& dry(*final(game))
                &&& probs_are_exact ==> unmined(*final(game), *probs).len() == 0
            }
            &&& moves::fair(*old(game)) && trusted(*old(game), *probs, probs_are_exact) ==> {
                &&& moves::fair(*final(game))
                &&& final(game).state != GameState::Lost
                &&& flags_right(*old(game), *final(game))
            }
        },
{
    if game.state != GameState::Playing || !game.mines_generated {
        return false;
    }
    let ghost start = *game;
    let mut any: bool = play_until_dry(game);
    let ghost dried = *game;
    let ghost moves = choose|moves: Seq<Move>| #[trigger]
        leads_on_proof(start, moves, dried) && any == (moves::opens(moves) > 0);
    proof {
        lemma_on_proof_leads(start, moves, dried);
    }
    if !any && probs_are_exact && game.state == GameState::Playing {
        let safe: Vec<(usize, usize)> = list_certain(game, probs, false);
        proof {
            if moves::fair(start) && trusted(start, *probs, probs_are_exact) {
                lemma_exact_is_true(start, dried, *probs);
            }
        }
        let opened: usize = reveal_all(game, &safe);
        proof {
            let next = choose|next: Seq<Move>|
                {
                    &&& #[trigger] moves::leads(dried, next, *game)
                    &&& only_open(next, safe@)
                    &&& opened == next.len()
                    &&& opened == moves::opens(next)
                };
            moves::lemma_leads_through(start, moves, dried, next, *game);
            if trusted(start, *probs, probs_are_exact) {
                lemma_trusted_same(start, dried, *probs, true);
                setup::law_flags_do_not_change_the_problem(start, dried);
                lemma_exact_is_proof(dried, *probs);
                assert forall|i: int| 0 <= i < next.len() implies among(
                    #[trigger] next[i],
                    Seq::empty(),
                    safe@,
                ) by {}
                lemma_proven_at_once(dried, next, *game, Seq::empty(), safe@);
                lemma_on_proof_through(start, moves, dried, next, *game);
            }
            board::lemma_scan(unmined_test(dried, *probs), dried.width, dried.height);
            if safe@.len() > 0 {
                assert(unmined_test(dried, *probs)(safe@[0].0 as int, safe@[0].1 as int));
                assert(!none_hidden(dried, safe@));
            }
            assert forall|x: int, y: int| start.has(x, y) implies (#[trigger] game.at(x, y)).content
                == start.at(x, y).content by {
                assert(dried.at(x, y).content == start.at(x, y).content);
            }
            if opened > 0 {
                moves::lemma_leads_fewer(start, moves, dried);
            }
            if moves::fair(start) {
                let games = choose|games: Seq<Minesweeper>| #[trigger]
                    moves::played(games, next) && games[0] == dried && games.last() == *game;
                lemma_opening_keeps_flags_right(start, games, next);
            }
        }
        any = opened > 0;
    }
    any
}

/// What an estimate calls never mined is listed just where the cell is hidden and its weight
/// is none at all; what it calls always mined, where the cell is hidden and its weight is
/// all of it.
pub proof fn law_only_none_and_all_are_certain(
    game: Minesweeper,
    probs: Estimate,
    x: usize,
    y: usize,
)
    requires
        game.has(x as int, y as int),
    ensures
        unmined(game, probs).contains((x, y)) <==> game.at(x as int, y as int).state
            == CellState::Hidden && probs.at(x as int, y as int) == 0,
        mined(game, probs).contains((x, y)) <==> game.at(x as int, y as int).state
            == CellState::Hidden && probs.at(x as int, y as int) == probs.total@,
{
    board::lemma_scan(unmined_test(game, probs), game.width, game.height);
    board::lemma_scan(mined_test(game, probs), game.width, game.height);
    let never = unmined(game, probs);
    let always = mined(game, probs);
    if never.contains((x, y)) {
        let i = choose|i: int| 0 <= i < never.len() && never[i] == (x, y);
        assert(unmined_test(game, probs)(never[i].0 as int, never[i].1 as int));
    }
    if always.contains((x, y)) {
        let i = choose|i: int| 0 <= i < always.len() && always[i] == (x, y);
        assert(mined_test(game, probs)(always[i].0 as int, always[i].1 as int));
    }
    if game.at(x as int, y as int).state == CellState::Hidden {
        if probs.at(x as int, y as int) == 0 {
            assert(unmined_test(game, probs)(x as int, y as int));
        }
        if probs.at(x as int, y as int) == probs.total@ {
            assert(mined_test(game, probs)(x as int, y as int));
        }
    }
}

/// What propagation proves is listed just where it settles the cell, unless more mines are
/// left than cells to put them in.
pub proof fn law_proven_cells_are_listed(game: Minesweeper, i: int)
    requires
        setup::unopened(game).len() <= usize::MAX,
        setup::mines_left(game) <= setup::unopened(game).len(),
        0 <= i < setup::unopened(game).len(),
    ensures
        probability::proven_safe(game).contains(setup::unopened(game)[i])
            <==> setup::board_known(game).safe.contains(i),
        probability::proven_mines(game).contains(setup::unopened(game)[i])
            <==> setup::board_known(game).mines.contains(i),
{
    let n = setup::unopened(game).len() as usize;
    let known = setup::board_known(game);
    lemma_picked_lists(game, known.safe, i);
    lemma_picked_lists(game, known.mines, i);
}

proof fn lemma_picked_lists(game: Minesweeper, members: Set<int>, i: int)
    requires
        setup::unopened(game).len() <= usize::MAX,
        0 <= i < setup::unopened(game).len(),
    ensures
        setup::picked(
            setup::unopened(game),
            propagate::listed(members, setup::unopened(game).len() as int),
        ).contains(setup::unopened(game)[i]) <==> members.contains(i),
{
    let all = setup::unopened(game);
    let n = all.len() as usize;
    let list = propagate::listed(members, n as int);
    let cells = setup::picked(all, list);
    propagate::lemma_listed(members, n);
    board::lemma_scan(setup::unopened_test(game), game.width, game.height);
    if cells.contains(all[i]) {
        let k = choose|k: int| 0 <= k < cells.len() && cells[k] == all[i];
        let j = list[k] as int;
        assert(layouts::cell_set(list).contains(list[k] as int));
        assert(layouts::first_cells(n as nat).contains(j));
        if i < j {
            assert(board::earlier(all[i], all[j]));
        }
        if j < i {
            assert(board::earlier(all[j], all[i]));
        }
    }
    if members.contains(i) {
        assert(layouts::first_cells(n as nat).contains(i));
        assert(layouts::cell_set(list).contains(i));
        let k = choose|k: int| 0 <= k < list.len() && #[trigger] list[k] == i;
        assert(cells[k] == all[i]);
    }
}

/// Once propagation has run dry, no cell that it settles is hidden any longer.
pub proof fn law_dry_boards_hide_nothing_settled(game: Minesweeper, i: int)
    requires
        dry(game),
        setup::unopened(game).len() <= usize::MAX,
        setup::mines_left(game) <= setup::unopened(game).len(),
        0 <= i < setup::unopened(game).len(),
        setup::board_known(game).settled().contains(i),
    ensures
        game.at(
            setup::unopened(game)[i].0 as int,
            setup::unopened(game)[i].1 as int,
        ).state == CellState::Flagged,
{
    let p = setup::unopened(game)[i];
    let safe = probability::proven_safe(game);
    let mines = probability::proven_mines(game);
    law_proven_cells_are_listed(game, i);
    board::lemma_scan(setup::unopened_test(game), game.width, game.height);
    assert(setup::unopened_test(game)(p.0 as int, p.1 as int));
    if safe.contains(p) {
        let k = choose|k: int| 0 <= k < safe.len() && safe[k] == p;
        assert(game.at(safe[k].0 as int, safe[k].1 as int).state != CellState::Hidden);
    }
    if mines.contains(p) {
        let k = choose|k: int| 0 <= k < mines.len() && mines[k] == p;
        assert(game.at(mines[k].0 as int, mines[k].1 as int).state != CellState::Hidden);
    }
}

} // verus!
