//! Moves on a board, and what every move keeps.

use vstd::prelude::*;
use vstd::set_lib::*;
use crate::board;
use crate::chance;
use crate::board::{CellState, GameState, Minesweeper};
use crate::probability::consistent;
use crate::probability::patch;

verus! {

// ---------------------------------------------------------------------------
// Moves
// ---------------------------------------------------------------------------

/// Something done to a hidden cell.
pub enum Move {
    Open(usize, usize),
    Flag(usize, usize),
}

/// Whether a move leads from one board to another. Once the game is over nothing changes.
pub open spec fn made(before: Minesweeper, step: Move, after: Minesweeper) -> bool {
    match step {
        Move::Open(x, y) => {
            &&& before.has(x as int, y as int)
            &&& before.at(x as int, y as int).state == CellState::Hidden
            &&& if before.state == GameState::Playing {
                before.uncovered(x as int, y as int, after)
            } else {
                after == before
            }
        },
        Move::Flag(x, y) => {
            &&& before.has(x as int, y as int)
            &&& before.at(x as int, y as int).state == CellState::Hidden
            &&& if before.state == GameState::Playing {
                before.flag_toggled(x as int, y as int, after)
            } else {
                after == before
            }
        },
    }
}

/// Whether each move leads from one board to the next.
pub open spec fn played(games: Seq<Minesweeper>, moves: Seq<Move>) -> bool {
    &&& games.len() == moves.len() + 1
    &&& forall|i: int| 0 <= i < moves.len() ==> made(games[i], #[trigger] moves[i], games[i + 1])
}

/// Whether moves lead from one board to another.
pub open spec fn leads(before: Minesweeper, moves: Seq<Move>, after: Minesweeper) -> bool {
    exists|games: Seq<Minesweeper>| #[trigger]
        played(games, moves) && games[0] == before && games.last() == after
}

/// How many moves open a cell.
pub open spec fn opens(moves: Seq<Move>) -> nat
    decreases moves.len(),
{
    if moves.len() == 0 {
        0
    } else {
        opens(moves.drop_last()) + if moves.last() is Open {
            1nat
        } else {
            0nat
        }
    }
}

/// No moves lead nowhere.
pub proof fn lemma_leads_nowhere(game: Minesweeper)
    ensures
        leads(game, Seq::empty(), game),
        opens(Seq::empty()) == 0,
{
    assert(played(seq![game], Seq::empty()));
}

/// One more move.
pub proof fn lemma_leads_on(
    start: Minesweeper,
    moves: Seq<Move>,
    before: Minesweeper,
    step: Move,
    after: Minesweeper,
)
    requires
        leads(start, moves, before),
        made(before, step, after),
    ensures
        leads(start, moves.push(step), after),
        opens(moves.push(step)) == opens(moves) + if step is Open {
            1nat
        } else {
            0nat
        },
{
    let games = choose|games: Seq<Minesweeper>| #[trigger]
        played(games, moves) && games[0] == start && games.last() == before;
    let more = games.push(after);
    let all = moves.push(step);
    assert forall|i: int| 0 <= i < all.len() implies made(more[i], #[trigger] all[i], more[i + 1]) by {
        if i < moves.len() {
            assert(all[i] == moves[i]);
        }
    }
    assert(played(more, all));
    assert(more[0] == start);
    assert(all.drop_last() =~= moves);
}

/// Moves after moves.
pub proof fn lemma_leads_through(
    start: Minesweeper,
    first: Seq<Move>,
    middle: Minesweeper,
    second: Seq<Move>,
    end: Minesweeper,
)
    requires
        leads(start, first, middle),
        leads(middle, second, end),
    ensures
        leads(start, first + second, end),
        opens(first + second) == opens(first) + opens(second),
    decreases second.len(),
{
    let games = choose|games: Seq<Minesweeper>| #[trigger]
        played(games, second) && games[0] == middle && games.last() == end;
    if second.len() == 0 {
        assert(first + second =~= first);
    } else {
        let less = second.drop_last();
        let before = games[second.len() - 1];
        let fewer = games.drop_last();
        assert forall|i: int| 0 <= i < less.len() implies made(
            fewer[i],
            #[trigger] less[i],
            fewer[i + 1],
        ) by {
            assert(less[i] == second[i]);
        }
        assert(played(fewer, less));
        assert(leads(middle, less, before));
        lemma_leads_through(start, first, middle, less, before);
        assert(made(games[second.len() - 1], second[second.len() - 1], games[second.len() as int]));
        lemma_leads_on(start, first + less, before, second.last(), end);
        assert((first + less).push(second.last()) =~= first + second);
    }
}

// ---------------------------------------------------------------------------
// Fair boards
// ---------------------------------------------------------------------------

/// The mines are placed, as many as the board says, and every number is right.
pub open spec fn fair(game: Minesweeper) -> bool {
    &&& game.wf()
    &&& game.mines_generated
    &&& game.numbered()
    &&& game.mine_spots().len() == game.mines_count
}

/// Fairness is about what is under the cells.
pub proof fn lemma_fair_same(before: Minesweeper, after: Minesweeper)
    requires
        fair(before),
        after.same_frame(before),
        after.mines_generated,
        after.same_contents(before),
    ensures
        fair(after),
{
    assert(after.mine_spots() =~= before.mine_spots()) by {
        assert forall|p: (int, int)|
            after.mine_spots().contains(p) <==> before.mine_spots().contains(p) by {
            if before.has(p.0, p.1) {
                assert(after.at(p.0, p.1).content == before.at(p.0, p.1).content);
            }
        }
    }
    assert forall|x: int, y: int|
        after.has(x, y) && !after.mine_at(x, y) implies (#[trigger] after.at(x, y)).content
        == board::CellContent::Empty(after.mines_in(after.around(x, y)) as u8) by {
        assert(after.at(x, y).content == before.at(x, y).content);
        board::lemma_neighbours(x, y, before.width, before.height);
        let cells = before.around(x, y);
        assert forall|i: int| 0 <= i < cells.len() implies after.mine_at(
            (#[trigger] cells[i]).0 as int,
            cells[i].1 as int,
        ) == before.mine_at(cells[i].0 as int, cells[i].1 as int) by {
            assert(before.has(cells[i].0 as int, cells[i].1 as int));
            assert(after.at(cells[i].0 as int, cells[i].1 as int).content == before.at(
                cells[i].0 as int,
                cells[i].1 as int,
            ).content);
        }
        board::lemma_mines_in_same(after, before, cells);
    }
}

/// Every move keeps a board fair, and only opening a mine loses.
pub proof fn law_moves_keep_a_board_fair(before: Minesweeper, step: Move, after: Minesweeper)
    requires
        fair(before),
        made(before, step, after),
        before.state != GameState::Lost,
    ensures
        fair(after),
        after.same_contents(before),
        step is Flag ==> after.state == before.state,
        after.state == GameState::Lost ==> before.mine_at(
            match step {
                Move::Open(x, _) => x as int,
                Move::Flag(x, _) => x as int,
            },
            match step {
                Move::Open(_, y) => y as int,
                Move::Flag(_, y) => y as int,
            },
        ),
{
    if before.state == GameState::Playing {
        lemma_fair_same(before, after);
    }
}

/// A board that is dealt with as many mines as it says is fair.
pub proof fn law_dealt_boards_are_fair(
    before: Minesweeper,
    x: int,
    y: int,
    picks: Seq<usize>,
    after: Minesweeper,
)
    requires
        before.wf(),
        before.mine_spots() =~= Set::<(int, int)>::empty(),
        picks.len() == before.mines_count,
        before.valid_picks(x, y, picks),
        before.dealt(x, y, picks, after),
    ensures
        fair(after),
{
    board::law_draws_count_mines(before, x, y, picks, after);
}

/// A board in play: before the first reveal nothing is mined and there is room for all
/// mines, from then on it is fair.
pub open spec fn healthy(game: Minesweeper) -> bool {
    &&& game.wf()
    &&& if game.mines_generated {
        fair(game)
    } else {
        &&& game.mine_spots() =~= Set::<(int, int)>::empty()
        &&& game.mines_count < game.width * game.height
    }
}

/// On a healthy board any cell can be revealed.
pub proof fn lemma_healthy_can_deal(game: Minesweeper, x: int, y: int)
    requires
        healthy(game),
        game.has(x, y),
        !game.mines_generated,
    ensures
        game.mines_count <= game.free_cells(x, y).len(),
{
    let test = game.free_test(x, y);
    assert forall|i: int, j: int|
        0 <= i < game.width && 0 <= j < game.height implies #[trigger] test(i, j) == ((i, j) != (
        x,
        y,
    )) by {
        assert(game.has(i, j));
        assert(!game.mine_spots().contains((i, j)));
    }
    board::lemma_scan_all_but(test, game.width as int, game.height as int, (x, y));
}

/// Whether a board comes from another one by revealing a cell. On the first reveal the
/// mines are placed.
pub open spec fn revealed(before: Minesweeper, x: int, y: int, after: Minesweeper) -> bool {
    if before.state != GameState::Playing {
        after == before
    } else if before.mines_generated {
        before.uncovered(x, y, after)
    } else {
        exists|picks: Seq<usize>, placed: Minesweeper|
            {
                &&& picks.len() == before.mines_count
                &&& before.valid_picks(x, y, picks)
                &&& chance::rolled(picks, before.free_cells(x, y).len())
                &&& #[trigger] before.dealt(x, y, picks, placed)
                &&& placed.uncovered(x, y, after)
            }
    }
}

/// Reveals a cell of a healthy board.
pub fn reveal_on(game: &mut Minesweeper, x: usize, y: usize)
    requires
        healthy(*old(game)),
        old(game).has(x as int, y as int),
    ensures
        healthy(*final(game)),
        final(game).same_frame(*old(game)),
        old(game).mines_generated ==> final(game).mines_generated,
        old(game).state == GameState::Playing ==> final(game).mines_generated,
        revealed(*old(game), x as int, y as int, *final(game)),
        old(game).state == GameState::Playing && !old(game).mines_generated ==> final(game).state
            != GameState::Lost,
{
    let ghost start = *game;
    proof {
        if !start.mines_generated {
            lemma_healthy_can_deal(start, x as int, y as int);
            assert(!start.mine_spots().contains((x as int, y as int)));
        }
    }
    game.reveal_cell(x, y);
    proof {
        if start.state == GameState::Playing {
            if start.mines_generated {
                lemma_fair_same(start, *game);
            } else {
                let (picks, placed) = choose|picks: Seq<usize>, placed: Minesweeper|
                    {
                        &&& picks.len() == start.mines_count
                        &&& start.valid_picks(x as int, y as int, picks)
                        &&& chance::rolled(picks, start.free_cells(x as int, y as int).len())
                        &&& #[trigger] start.dealt(x as int, y as int, picks, placed)
                        &&& placed.uncovered(x as int, y as int, *game)
                    };
                law_dealt_boards_are_fair(start, x as int, y as int, picks, placed);
                lemma_fair_same(placed, *game);
            }
        }
    }
}

/// Toggles the flag of a cell of a healthy board.
pub fn flag_on(game: &mut Minesweeper, x: usize, y: usize)
    requires
        healthy(*old(game)),
        old(game).has(x as int, y as int),
    ensures
        healthy(*final(game)),
        final(game).same_frame(*old(game)),
        final(game).mines_generated == old(game).mines_generated,
        old(game).state != GameState::Playing ==> *final(game) == *old(game),
        old(game).state == GameState::Playing ==> old(game).flag_toggled(
            x as int,
            y as int,
            *final(game),
        ),
{
    let ghost start = *game;
    game.toggle_flag(x, y);
    proof {
        if start.state == GameState::Playing {
            if start.mines_generated {
                lemma_fair_same(start, *game);
            } else {
                assert forall|p: (int, int)| game.mine_spots().contains(p) implies false by {
                    assert(game.at(p.0, p.1).content == start.at(p.0, p.1).content);
                    assert(start.mine_spots().contains(p));
                }
                assert(game.mine_spots() =~= Set::<(int, int)>::empty());
            }
        }
    }
}

/// Starts a game with fewer mines than cells.
pub fn fresh(width: usize, height: usize, mines: usize) -> (game: Minesweeper)
    requires
        mines < width * height,
    ensures
        healthy(game),
        game.width == width,
        game.height == height,
        game.mines_count == mines,
        game.state == GameState::Playing,
        !game.mines_generated,
        forall|x: int, y: int|
            game.has(x, y) ==> #[trigger] game.at(x, y) == (board::Cell {
                state: CellState::Hidden,
                content: board::CellContent::Empty(0),
            }),
{
    let game = Minesweeper::new(width, height, mines);
    proof {
        assert forall|p: (int, int)| game.mine_spots().contains(p) implies false by {
            assert(game.at(p.0, p.1).content == board::CellContent::Empty(0));
        }
        assert(game.mine_spots() =~= Set::<(int, int)>::empty());
    }
    game
}

/// What is hidden stays or is uncovered; the cell of a move does not stay.
pub proof fn lemma_fewer_hidden(before: Minesweeper, step: Move, after: Minesweeper)
    requires
        before.wf(),
        made(before, step, after),
        before.state == GameState::Playing,
    ensures
        after.hidden_spots().len() < before.hidden_spots().len(),
        after.hidden_spots().subset_of(before.hidden_spots()),
{
    let p = match step {
        Move::Open(x, y) => (x as int, y as int),
        Move::Flag(x, y) => (x as int, y as int),
    };
    board::lemma_hidden_finite(before);
    assert(before.hidden_at(p));
    assert(before.hidden_spots().contains(p));
    if step is Open && !before.mine_at(p.0, p.1) {
        assert(before.opening_path(seq![p]));
        assert(before.opened(p.0, p.1).contains(p));
    }
    assert forall|q: (int, int)| after.hidden_spots().contains(q) implies before.hidden_spots().remove(
        p,
    ).contains(q) by {
        assert(after.hidden_at(q));
        assert(after.at(q.0, q.1).state == CellState::Hidden);
        assert(before.has(q.0, q.1));
    }
    lemma_len_subset(after.hidden_spots(), before.hidden_spots().remove(p));
}

/// Moves do not change the size of a board.
pub proof fn lemma_same_size(games: Seq<Minesweeper>, moves: Seq<Move>)
    requires
        played(games, moves),
    ensures
        games.last().width == games[0].width,
        games.last().height == games[0].height,
    decreases moves.len(),
{
    if moves.len() > 0 {
        let fewer = games.drop_last();
        let less = moves.drop_last();
        assert forall|i: int| 0 <= i < less.len() implies made(
            fewer[i],
            #[trigger] less[i],
            fewer[i + 1],
        ) by {
            assert(less[i] == moves[i]);
        }
        lemma_same_size(fewer, less);
        let k = moves.len() - 1;
        assert(made(games[k], moves[k], games[k + 1]));
    }
}

/// No more cells are hidden than there are.
pub proof fn lemma_hidden_bound(game: Minesweeper)
    ensures
        game.hidden_spots().len() <= game.width * game.height,
{
    let test = patch::hidden_test(game);
    consistent::lemma_scan_len(game, test);
    board::lemma_scan_bound(test, game.width as int, game.height as int);
    assert(game.hidden_spots() =~= consistent::test_spots(game, test));
}

/// Moves never hide a cell.
pub proof fn lemma_leads_fewer(before: Minesweeper, moves: Seq<Move>, after: Minesweeper)
    requires
        before.wf(),
        leads(before, moves, after),
    ensures
        after.hidden_spots().len() <= before.hidden_spots().len(),
        after.wf(),
    decreases moves.len(),
{
    let games = choose|games: Seq<Minesweeper>| #[trigger]
        played(games, moves) && games[0] == before && games.last() == after;
    if moves.len() > 0 {
        let fewer = games.drop_last();
        let less = moves.drop_last();
        assert forall|i: int| 0 <= i < less.len() implies made(
            fewer[i],
            #[trigger] less[i],
            fewer[i + 1],
        ) by {
            assert(less[i] == moves[i]);
        }
        assert(played(fewer, less));
        let k = moves.len() - 1;
        assert(leads(before, less, games[k]));
        lemma_leads_fewer(before, less, games[k]);
        assert(made(games[k], moves[k], games[k + 1]));
        if games[k].state == GameState::Playing {
            lemma_fewer_hidden(games[k], moves[k], games[k + 1]);
        }
    }
}

/// However many cells without a mine are opened, one after the other, the game is not
/// lost and the board stays fair.
pub proof fn law_opening_no_mine_does_not_lose(games: Seq<Minesweeper>, moves: Seq<Move>)
    requires
        played(games, moves),
        fair(games[0]),
        games[0].state != GameState::Lost,
        forall|i: int|
            0 <= i < moves.len() ==> (#[trigger] moves[i]) is Open && !games[0].mine_at(
                moves[i]->Open_0 as int,
                moves[i]->Open_1 as int,
            ),
    ensures
        fair(games.last()),
        games.last().state != GameState::Lost,
        games.last().same_frame(games[0]),
        games.last().same_contents(games[0]),
    decreases moves.len(),
{
    if moves.len() > 0 {
        let fewer = games.drop_last();
        let less = moves.drop_last();
        assert forall|i: int| 0 <= i < less.len() implies made(
            fewer[i],
            #[trigger] less[i],
            fewer[i + 1],
        ) && less[i] is Open && !games[0].mine_at(
            less[i]->Open_0 as int,
            less[i]->Open_1 as int,
        ) by {
            assert(less[i] == moves[i]);
        }
        law_opening_no_mine_does_not_lose(fewer, less);
        let k = moves.len() - 1;
        let before = games[k];
        let after = games[k + 1];
        let step = moves[k];
        assert(made(before, step, after));
        let (x, y) = (step->Open_0 as int, step->Open_1 as int);
        assert(!games[0].mine_at(x, y));
        assert(before.at(x, y).content == games[0].at(x, y).content);
        law_moves_keep_a_board_fair(before, step, after);
        assert forall|i: int, j: int| games[0].has(i, j) implies (#[trigger] after.at(
            i,
            j,
        )).content == games[0].at(i, j).content by {
            assert(before.has(i, j));
            assert(before.at(i, j).content == games[0].at(i, j).content);
        }
    }
}

} // verus!
