//! Positions from random games, labelled with their exact probabilities, to train a
//! network on.
//!
//! Every label is exact. Positions that the search cannot finish within its budget are
//! skipped rather than labelled with a sampled estimate: a sampled label looks exactly
//! like an exact one, so letting one through would quietly teach a network someone else's
//! guesses.

use vstd::prelude::*;
use crate::board;
use crate::board::{Cell, CellContent, CellState, GameState, Minesweeper};
use crate::chance;
use crate::chance::{Dice, Roll};
use crate::moves;
use crate::probability::consistent;
use crate::probability::constraint_search::ConstraintSearch;
use crate::probability::estimate::Estimate;
use crate::probability::patch;
use crate::probability::ProbabilityStrategy;
use crate::session;
use crate::session::Run;
use crate::settings::Settings;

verus! {

/// How many kinds of board there are.
pub const CONFIGS: usize = 5;

/// The kinds of board that are played, from beginner to expert.
pub open spec fn config_of(i: int) -> Settings {
    if i == 0 {
        Settings { width: 9, height: 9, mines: 10 }
    } else if i == 1 {
        Settings { width: 10, height: 10, mines: 15 }
    } else if i == 2 {
        Settings { width: 16, height: 16, mines: 40 }
    } else if i == 3 {
        Settings { width: 16, height: 16, mines: 51 }
    } else {
        Settings { width: 30, height: 16, mines: 99 }
    }
}

/// A kind of board.
pub fn config(i: usize) -> (settings: Settings)
    ensures
        settings == config_of(i as int),
        settings.playable(50),
{
    if i == 0 {
        Settings { width: 9, height: 9, mines: 10 }
    } else if i == 1 {
        Settings { width: 10, height: 10, mines: 15 }
    } else if i == 2 {
        Settings { width: 16, height: 16, mines: 40 }
    } else if i == 3 {
        Settings { width: 16, height: 16, mines: 51 }
    } else {
        Settings { width: 30, height: 16, mines: 99 }
    }
}

/// The most moves that are made after the first one.
pub open spec fn most_moves(settings: Settings) -> int {
    let quarter = settings.width * settings.height / 4;
    if quarter < 2 {
        2
    } else {
        quarter
    }
}

/// Whether a board follows another one by revealing a hidden cell while the game is
/// played.
pub open spec fn one_move(before: Minesweeper, after: Minesweeper) -> bool {
    exists|x: usize, y: usize|
        {
            &&& before.state == GameState::Playing
            &&& before.has(x as int, y as int)
            &&& before.at(x as int, y as int).state == CellState::Hidden
            &&& #[trigger] moves::revealed(before, x as int, y as int, after)
        }
}

/// Whether boards follow one another by one move each.
pub open spec fn random_play(games: Seq<Minesweeper>) -> bool {
    forall|i: int| 0 <= i < games.len() - 1 ==> one_move(#[trigger] games[i], games[i + 1])
}

/// Whether each board follows the one before by revealing the hidden cell that was drawn for
/// it, out of all that were hidden then.
pub open spec fn by_rolls(games: Seq<Minesweeper>, rolls: Seq<Roll>) -> bool {
    &&& games.len() == rolls.len() + 1
    &&& forall|i: int|
        0 <= i < rolls.len() ==> drawn_move(games[i], #[trigger] rolls[i], games[i + 1])
}

/// Whether a board follows another one by revealing the hidden cell that was drawn.
pub open spec fn drawn_move(before: Minesweeper, roll: Roll, after: Minesweeper) -> bool {
    let hidden = patch::hidden_cells(before);
    &&& before.state == GameState::Playing
    &&& roll.below == hidden.len()
    &&& roll.value < roll.below
    &&& moves::revealed(
        before,
        hidden[roll.value as int].0 as int,
        hidden[roll.value as int].1 as int,
        after,
    )
}

/// Whether boards are a random game as the rolls say: the column and the row of the first
/// cell, then, if the game goes on, how many more moves are made, at least one, and the
/// cell of each. Fewer are made only where the game ends or nothing is hidden.
pub open spec fn scripted(settings: Settings, games: Seq<Minesweeper>, rolls: Seq<Roll>) -> bool {
    &&& games.len() >= 2
    &&& rolls.len() >= 2
    &&& rolls[0].below == settings.width
    &&& rolls[1].below == settings.height
    &&& moves::revealed(games[0], rolls[0].value as int, rolls[1].value as int, games[1])
    &&& if games[1].state != GameState::Playing {
        games.len() == 2 && rolls.len() == 2
    } else {
        &&& rolls.len() >= 3
        &&& rolls[2].below == most_moves(settings)
        &&& by_rolls(games.skip(1), rolls.skip(3))
        &&& games.len() - 2 <= rolls[2].value + 1
        &&& games.len() - 2 == rolls[2].value + 1 || !is_worth_labelling(games.last())
    }
}

/// Whether boards are a random game, all of it drawn.
pub open spec fn played_by_chance(settings: Settings, games: Seq<Minesweeper>) -> bool {
    exists|dice: Dice| scripted(settings, games, #[trigger] dice.rolls())
}

/// Whether a game on a kind of board is about to begin: nothing is mined and everything
/// is hidden.
pub open spec fn about_to_begin(settings: Settings, game: Minesweeper) -> bool {
    &&& game.wf()
    &&& game.width == settings.width
    &&& game.height == settings.height
    &&& game.mines_count == settings.mines
    &&& game.state == GameState::Playing
    &&& !game.mines_generated
    &&& forall|x: int, y: int|
        game.has(x, y) ==> #[trigger] game.at(x, y) == (Cell {
            state: CellState::Hidden,
            content: CellContent::Empty(0),
        })
}

/// Whether boards are those of a random game on a kind of board, from its beginning, with
/// no more moves than are ever made.
pub open spec fn played_on(settings: Settings, games: Seq<Minesweeper>) -> bool {
    &&& random_play(games)
    &&& 2 <= games.len() <= most_moves(settings) + 2
    &&& about_to_begin(settings, games[0])
}

/// Whether a position is worth labelling: the game goes on and something is hidden.
pub open spec fn is_worth_labelling(game: Minesweeper) -> bool {
    game.state == GameState::Playing && patch::hidden_cells(game).len() > 0
}

/// Whether a position may come out of a random game on a kind of board: it is worth
/// labelling, and at least one move was made after the first one.
pub open spec fn may_come_up(settings: Settings, game: Minesweeper) -> bool {
    exists|games: Seq<Minesweeper>|
        {
            &&& #[trigger] played_on(settings, games)
            &&& games.len() >= 3
            &&& games.last() == game
            &&& is_worth_labelling(game)
            &&& played_by_chance(settings, games)
        }
}

/// Whether a random game on a kind of board may lead to nothing worth labelling: it ended
/// on the way, or left nothing hidden.
pub open spec fn may_lead_nowhere(settings: Settings) -> bool {
    exists|games: Seq<Minesweeper>| #[trigger]
        played_on(settings, games) && !is_worth_labelling(games.last()) && played_by_chance(
            settings,
            games,
        )
}

/// One more move.
proof fn lemma_play_on(games: Seq<Minesweeper>, after: Minesweeper)
    requires
        random_play(games),
        games.len() > 0,
        one_move(games.last(), after),
    ensures
        random_play(games.push(after)),
{
    let more = games.push(after);
    assert forall|i: int| 0 <= i < more.len() - 1 implies one_move(
        #[trigger] more[i],
        more[i + 1],
    ) by {
        if i < games.len() - 1 {
            assert(one_move(games[i], games[i + 1]));
        }
    }
}

/// Moves after moves.
proof fn lemma_play_through(first: Seq<Minesweeper>, rest: Seq<Minesweeper>) -> (games: Seq<
    Minesweeper,
>)
    requires
        random_play(first),
        random_play(rest),
        first.len() > 0,
        rest.len() > 0,
        rest[0] == first.last(),
    ensures
        random_play(games),
        games.len() == first.len() + rest.len() - 1,
        games == first.drop_last() + rest,
        games[0] == first[0],
        games.last() == rest.last(),
{
    let games = first.drop_last() + rest;
    let n = first.len() - 1;
    assert forall|i: int| 0 <= i < games.len() - 1 implies one_move(
        #[trigger] games[i],
        games[i + 1],
    ) by {
        if i < n {
            assert(one_move(first[i], first[i + 1]));
        } else {
            assert(one_move(rest[i - n], rest[i - n + 1]));
        }
    }
    games
}

/// Reveals one of the hidden cells, counted row by row.
pub fn reveal_hidden(game: &mut Minesweeper, choice: usize)
    requires
        moves::healthy(*old(game)),
        choice < patch::hidden_cells(*old(game)).len(),
    ensures
        moves::healthy(*final(game)),
        final(game).same_frame(*old(game)),
        old(game).mines_generated || old(game).state == GameState::Playing
            ==> final(game).mines_generated,
        moves::revealed(
            *old(game),
            patch::hidden_cells(*old(game))[choice as int].0 as int,
            patch::hidden_cells(*old(game))[choice as int].1 as int,
            *final(game),
        ),
        old(game).state == GameState::Playing ==> one_move(*old(game), *final(game)),
{
    let ghost before = *game;
    let hidden: Vec<(usize, usize)> = patch::list_hidden(game);
    let (x, y): (usize, usize) = hidden[choice];
    proof {
        board::lemma_scan(patch::hidden_test(before), before.width, before.height);
        let p = hidden@[choice as int];
        assert(p == (x, y) && patch::hidden_test(before)(p.0 as int, p.1 as int));
    }
    moves::reveal_on(game, x, y);
    assert(moves::revealed(before, x as int, y as int, *game));
}

/// Whether a board comes of so many random moves on another one, or of fewer where the game
/// is over or nothing is hidden after them.
pub open spec fn plays_some(before: Minesweeper, max_moves: nat, after: Minesweeper) -> bool {
    exists|games: Seq<Minesweeper>|
        {
            &&& #[trigger] random_play(games)
            &&& games.len() > 0
            &&& games[0] == before
            &&& games.last() == after
            &&& games.len() <= max_moves + 1
            &&& games.len() == max_moves + 1 || !is_worth_labelling(after)
            &&& exists|dice: Dice| by_rolls(games, #[trigger] dice.rolls())
        }
}

/// Makes random moves, so many of them unless the game ends or nothing is hidden before.
pub fn play_some(game: &mut Minesweeper, max_moves: usize)
    requires
        moves::healthy(*old(game)),
    ensures
        moves::healthy(*final(game)),
        final(game).same_frame(*old(game)),
        old(game).mines_generated ==> final(game).mines_generated,
        plays_some(*old(game), max_moves as nat, *final(game)),
{
    let mut dice = Dice::new();
    let ghost start = *game;
    play_rolled(game, max_moves, &mut dice);
    proof {
        let (games, rolls) = choose|games: Seq<Minesweeper>, rolls: Seq<Roll>|
            {
                &&& random_play(games)
                &&& #[trigger] by_rolls(games, rolls)
                &&& games[0] == start
                &&& games.last() == *game
                &&& games.len() <= max_moves + 1
                &&& games.len() == max_moves + 1 || !is_worth_labelling(*game)
                &&& dice.rolls() == Seq::<Roll>::empty() + rolls
            };
        assert(dice.rolls() =~= rolls);
        assert(by_rolls(games, dice.rolls()));
        assert(random_play(games));
    }
}

/// Makes random moves, by one roll each.
fn play_rolled(game: &mut Minesweeper, max_moves: usize, dice: &mut Dice)
    requires
        moves::healthy(*old(game)),
    ensures
        moves::healthy(*final(game)),
        final(game).same_frame(*old(game)),
        old(game).mines_generated ==> final(game).mines_generated,
        exists|games: Seq<Minesweeper>, rolls: Seq<Roll>|
            {
                &&& random_play(games)
                &&& #[trigger] by_rolls(games, rolls)
                &&& games[0] == *old(game)
                &&& games.last() == *final(game)
                &&& games.len() <= max_moves + 1
                &&& games.len() == max_moves + 1 || !is_worth_labelling(*final(game))
                &&& final(dice).rolls() == old(dice).rolls() + rolls
            },
{
    let ghost start = *game;
    let ghost before_rolls = dice.rolls();
    let ghost mut games: Seq<Minesweeper> = seq![start];
    let ghost mut rolls: Seq<Roll> = Seq::empty();
    let mut made: usize = 0;
    assert(before_rolls + rolls =~= before_rolls);
    while made < max_moves && worth_labelling(game)
        invariant
            moves::healthy(*game),
            game.same_frame(start),
            start.mines_generated ==> game.mines_generated,
            random_play(games),
            by_rolls(games, rolls),
            dice.rolls() == before_rolls + rolls,
            games.len() == made + 1,
            made <= max_moves,
            games[0] == start,
            games.last() == *game,
        ensures
            made == max_moves || !is_worth_labelling(*game),
        decreases max_moves - made,
    {
        let hidden: usize = patch::count_hidden(game);
        let ghost before = *game;
        let choice: usize = dice.roll(hidden);
        reveal_hidden(game, choice);
        proof {
            let roll = Roll { below: hidden as nat, value: choice as nat };
            lemma_play_on(games, *game);
            let all = games.push(*game);
            let more = rolls.push(roll);
            assert forall|i: int| 0 <= i < more.len() implies drawn_move(
                all[i],
                #[trigger] more[i],
                all[i + 1],
            ) by {
                if i < rolls.len() {
                    assert(more[i] == rolls[i]);
                } else {
                    assert(drawn_move(before, roll, *game));
                }
            }
            assert(dice.rolls() =~= before_rolls + more);
            games = all;
            rolls = more;
        }
        made = made + 1;
    }
    assert(by_rolls(games, rolls));
}

/// Whether a position is worth labelling: the game goes on and something is hidden.
pub fn worth_labelling(game: &Minesweeper) -> (worth: bool)
    requires
        game.wf(),
    ensures
        worth == is_worth_labelling(*game),
{
    game.state == GameState::Playing && patch::count_hidden(game) > 0
}

/// Plays a random game part of the way. There is no position where the game ended on the
/// way, nor where nothing is hidden, and only there.
///
/// Every stage of a game may come up, not just the end: a network that has only seen the
/// ends of games knows nothing of how they begin.
pub fn random_position(settings: Settings) -> (position: Option<Minesweeper>)
    requires
        settings.playable(50),
    ensures
        match position {
            Some(game) => {
                &&& moves::fair(game)
                &&& game.width == settings.width
                &&& game.height == settings.height
                &&& game.mines_count == settings.mines
                &&& may_come_up(settings, game)
            },
            None => may_lead_nowhere(settings),
        },
{
    let mut game: Minesweeper = moves::fresh(settings.width, settings.height, settings.mines);
    let ghost mut games: Seq<Minesweeper> = seq![game];
    let mut dice = Dice::new();
    let first_x: usize = dice.roll(settings.width);
    let first_y: usize = dice.roll(settings.height);
    let ghost before = game;
    moves::reveal_on(&mut game, first_x, first_y);
    proof {
        assert(random_play(games));
        assert(before.at(first_x as int, first_y as int).state == CellState::Hidden);
        assert(moves::revealed(before, first_x as int, first_y as int, game));
        lemma_play_on(games, game);
        games = games.push(game);
        assert(9 <= settings.width * settings.height <= 2500) by (nonlinear_arith)
            requires
                3 <= settings.width <= 50,
                3 <= settings.height <= 50,
        ;
    }
    assert(played_on(settings, games));
    if game.state != GameState::Playing {
        assert(scripted(settings, games, dice.rolls()));
        assert(played_by_chance(settings, games));
        return None;
    }
    let quarter: usize = settings.width * settings.height / 4;
    let most: usize = if quarter < 2 {
        2
    } else {
        quarter
    };
    let max_moves: usize = 1 + dice.roll(most);
    let ghost first = game;
    let ghost so_far = dice.rolls();
    play_rolled(&mut game, max_moves, &mut dice);
    proof {
        let (rest, rolls) = choose|rest: Seq<Minesweeper>, rolls: Seq<Roll>|
            {
                &&& random_play(rest)
                &&& #[trigger] by_rolls(rest, rolls)
                &&& rest[0] == first
                &&& rest.last() == game
                &&& rest.len() <= max_moves + 1
                &&& rest.len() == max_moves + 1 || !is_worth_labelling(game)
                &&& dice.rolls() == so_far + rolls
            };
        let start = games[0];
        games = lemma_play_through(games, rest);
        assert(games[0] == start);
        assert(games.skip(1) =~= rest);
        assert(dice.rolls().skip(3) =~= rolls);
        assert(games[1] == rest[0]);
        assert(scripted(settings, games, dice.rolls()));
        assert(played_by_chance(settings, games));
        assert(played_on(settings, games));
    }
    if !worth_labelling(&game) {
        return None;
    }
    Some(game)
}

/// Every hidden cell is equally likely to be next: just one of the numbers that can be
/// drawn stands for it.
pub proof fn law_every_hidden_cell_is_equally_likely(game: Minesweeper, x: usize, y: usize)
    requires
        game.has(x as int, y as int),
        game.at(x as int, y as int).state == CellState::Hidden,
    ensures
        exists|v: int|
            0 <= v < patch::hidden_cells(game).len() && #[trigger] patch::hidden_cells(game)[v]
                == (x, y),
        forall|v: int, w: int|
            0 <= v < patch::hidden_cells(game).len() && 0 <= w < patch::hidden_cells(game).len()
                && #[trigger] patch::hidden_cells(game)[v] == #[trigger] patch::hidden_cells(
                game,
            )[w] ==> v == w,
        forall|v: int|
            0 <= v < patch::hidden_cells(game).len() ==> game.has(
                (#[trigger] patch::hidden_cells(game)[v]).0 as int,
                patch::hidden_cells(game)[v].1 as int,
            ) && game.at(
                patch::hidden_cells(game)[v].0 as int,
                patch::hidden_cells(game)[v].1 as int,
            ).state == CellState::Hidden,
{
    let test = patch::hidden_test(game);
    let list = patch::hidden_cells(game);
    board::lemma_scan(test, game.width, game.height);
    assert(test(x as int, y as int));
    assert(list.contains((x, y)));
    let v = choose|v: int| 0 <= v < list.len() && list[v] == (x, y);
    assert(patch::hidden_cells(game)[v] == (x, y));
    assert forall|a: int, b: int|
        0 <= a < list.len() && 0 <= b < list.len() && #[trigger] list[a]
            == #[trigger] list[b] implies a == b by {
        if a < b {
            assert(board::earlier(list[a], list[b]));
        }
        if b < a {
            assert(board::earlier(list[b], list[a]));
        }
    }
    assert forall|k: int| 0 <= k < list.len() implies game.has(
        (#[trigger] list[k]).0 as int,
        list[k].1 as int,
    ) && game.at(list[k].0 as int, list[k].1 as int).state == CellState::Hidden by {
        assert(test(list[k].0 as int, list[k].1 as int));
    }
}

// ---------------------------------------------------------------------------
// Records
// ---------------------------------------------------------------------------

/// One cell of a record.
#[derive(Debug, Clone, Copy, PartialEq, Eq, Structural)]
pub struct CellRecord {
    /// 0 hidden, 1 visible, 2 flagged.
    pub state: u8,
    /// The number of a visible cell, 9 for a visible mine, 255 for the others.
    pub content: u8,
}

/// A labelled position.
pub struct GameRecord {
    pub width: usize,
    pub height: usize,
    pub mines_count: usize,
    pub grid: Vec<Vec<CellRecord>>,
    pub probs: Estimate,
}

/// Whether a grid records what a player sees of a board.
pub open spec fn records(grid: Seq<Vec<CellRecord>>, game: Minesweeper) -> bool {
    &&& grid.len() == game.height
    &&& forall|y: int| 0 <= y < game.height ==> (#[trigger] grid[y])@.len() == game.width
    &&& forall|x: int, y: int|
        game.has(x, y) ==> (#[trigger] grid[y]@[x]) == (CellRecord {
            state: patch::state_code(game.at(x, y).state),
            content: patch::content_code(game.at(x, y)),
        })
}

/// Records what a player sees of a board.
pub fn record_grid(game: &Minesweeper) -> (grid: Vec<Vec<CellRecord>>)
    requires
        game.wf(),
    ensures
        records(grid@, *game),
{
    let mut grid: Vec<Vec<CellRecord>> = Vec::new();
    for y in 0..game.height
        invariant
            game.wf(),
            grid@.len() == y,
            forall|j: int| 0 <= j < y ==> (#[trigger] grid@[j])@.len() == game.width,
            forall|i: int, j: int|
                0 <= i < game.width && 0 <= j < y ==> (#[trigger] grid@[j]@[i]) == (CellRecord {
                    state: patch::state_code(game.at(i, j).state),
                    content: patch::content_code(game.at(i, j)),
                }),
    {
        let mut row: Vec<CellRecord> = Vec::new();
        for x in 0..game.width
            invariant
                game.wf(),
                y < game.height,
                row@.len() == x,
                forall|i: int|
                    0 <= i < x ==> (#[trigger] row@[i]) == (CellRecord {
                        state: patch::state_code(game.at(i, y as int).state),
                        content: patch::content_code(game.at(i, y as int)),
                    }),
        {
            row.push(
                CellRecord {
                    state: patch::encode_state(game.grid[y][x].state),
                    content: patch::encode_content(&game.grid[y][x]),
                },
            );
        }
        grid.push(row);
    }
    grid
}

/// Exact probabilities, or none where the search could not finish. Zero layouts is how
/// the search says that it has no trustworthy answer.
pub fn exact_labels(cs: &mut ConstraintSearch, game: &Minesweeper) -> (labels: Option<Estimate>)
    requires
        old(cs).can_estimate(*game),
    ensures
        final(cs).wf(),
        final(cs).max_nodes == old(cs).max_nodes,
        exists|run: Run| #[trigger]
            session::may_search(*old(cs), *game, run, *final(cs)) && match labels {
                Some(probs) => run.valid > 0 && probs == run.probs,
                None => run.valid == 0,
            },
        labels matches Some(probs) ==> {
            &&& probs.wf(game.width as int, game.height as int)
            &&& consistent::possible(*game) ==> ConstraintSearch::exact(*game, probs)
        },
{
    let run: Run = session::searched(cs, game);
    assert(session::may_search(*old(cs), *game, run, *cs));
    if run.valid > 0 {
        Some(run.probs)
    } else {
        None
    }
}

/// Labels a position.
pub fn label(cs: &mut ConstraintSearch, game: &Minesweeper) -> (record: Option<GameRecord>)
    requires
        old(cs).can_estimate(*game),
    ensures
        final(cs).wf(),
        final(cs).max_nodes == old(cs).max_nodes,
        exists|run: Run| #[trigger]
            session::may_search(*old(cs), *game, run, *final(cs)) && (record is Some <==> run.valid > 0) && (
            record matches Some(r) ==> r.probs == run.probs),
        record matches Some(r) ==> {
            &&& r.width == game.width
            &&& r.height == game.height
            &&& r.mines_count == game.mines_count
            &&& records(r.grid@, *game)
            &&& consistent::possible(*game) ==> ConstraintSearch::exact(*game, r.probs)
        },
{
    match exact_labels(cs, game) {
        Some(probs) => Some(
            GameRecord {
                width: game.width,
                height: game.height,
                mines_count: game.mines_count,
                grid: record_grid(game),
                probs,
            },
        ),
        None => None,
    }
}

/// Plays a random game on a random kind of board and labels where it got to. There is no
/// record where the game led to nothing worth labelling, nor where the search has no
/// answer, and only there.
pub fn generate(cs: &mut ConstraintSearch) -> (record: Option<GameRecord>)
    requires
        old(cs).wf(),
    ensures
        final(cs).wf(),
        final(cs).max_nodes == old(cs).max_nodes,
        match record {
            Some(r) => exists|i: int, game: Minesweeper, run: Run|
                {
                    &&& 0 <= i < 5
                    &&& chance::rolled_once(i as nat, 5)
                    &&& #[trigger] may_come_up(config_of(i), game)
                    &&& #[trigger] session::may_search(*old(cs), game, run, *final(cs))
                    &&& run.valid > 0
                    &&& r.width == game.width
                    &&& r.height == game.height
                    &&& r.mines_count == game.mines_count
                    &&& records(r.grid@, game)
                    &&& r.probs == run.probs
                    &&& ConstraintSearch::exact(game, r.probs)
                },
            None => {
                ||| *final(cs) == *old(cs) && exists|i: int|
                    0 <= i < 5 && chance::rolled_once(i as nat, 5) && may_lead_nowhere(
                        #[trigger] config_of(i),
                    )
                ||| exists|i: int, game: Minesweeper, run: Run|
                    {
                        &&& 0 <= i < 5
                        &&& chance::rolled_once(i as nat, 5)
                        &&& #[trigger] may_come_up(config_of(i), game)
                        &&& #[trigger] session::may_search(*old(cs), game, run, *final(cs))
                        &&& run.valid == 0
                    }
            },
        },
{
    let mut dice = Dice::new();
    let i: usize = dice.roll(CONFIGS);
    proof {
        assert(dice.rolls() =~= seq![Roll { below: 5, value: i as nat }]);
        assert(chance::rolled_once(i as nat, 5));
    }
    let settings: Settings = config(i);
    match random_position(settings) {
        None => {
            assert(may_lead_nowhere(config_of(i as int)));
            None
        },
        Some(game) => {
            proof {
                assert(game.width * game.height <= 2500) by (nonlinear_arith)
                    requires
                        game.width <= 50,
                        game.height <= 50,
                ;
                consistent::law_the_real_mines_are_consistent(game);
            }
            let record: Option<GameRecord> = label(cs, &game);
            assert(may_come_up(config_of(i as int), game));
            record
        },
    }
}

/// A record holds what the player sees and no more: of each cell whether it is hidden,
/// visible or flagged, and of the visible ones the number, or nine for a mine. Two boards
/// have the same record of a cell just where it looks the same.
pub proof fn law_records_hold_what_is_seen(
    a: Minesweeper,
    b: Minesweeper,
    here: Seq<Vec<CellRecord>>,
    there: Seq<Vec<CellRecord>>,
    x: int,
    y: int,
)
    requires
        records(here, a),
        records(there, b),
        a.has(x, y),
        b.has(x, y),
        a.at(x, y).content matches CellContent::Empty(n) ==> n <= 8,
        b.at(x, y).content matches CellContent::Empty(n) ==> n <= 8,
    ensures
        here[y]@[x] == there[y]@[x] <==> a.at(x, y).state == b.at(x, y).state && (a.at(x, y).state
            == CellState::Visible ==> a.at(x, y).content == b.at(x, y).content),
        a.at(x, y).state == CellState::Hidden <==> here[y]@[x].state == 0,
        a.at(x, y).state == CellState::Visible <==> here[y]@[x].state == 1,
        a.at(x, y).state == CellState::Flagged <==> here[y]@[x].state == 2,
        a.at(x, y).state == CellState::Visible ==> (a.at(
            x,
            y,
        ).content matches CellContent::Empty(n) ==> here[y]@[x].content == n),
        a.at(x, y).state == CellState::Visible && a.at(x, y).content == CellContent::Mine
            ==> here[y]@[x].content == 9,
        a.at(x, y).state != CellState::Visible ==> here[y]@[x].content == 255,
{
    assert(here[y]@[x] == here[y]@[x]);
    assert(there[y]@[x] == there[y]@[x]);
}

/// A random game on a kind of board is as long as was drawn, one move to a quarter of the
/// cells after the first, unless it ends before; each move opens the hidden cell that was
/// drawn.
pub proof fn law_random_games_are_as_long_as_drawn(
    settings: Settings,
    games: Seq<Minesweeper>,
    rolls: Seq<Roll>,
)
    requires
        scripted(settings, games, rolls),
        settings.playable(50),
    ensures
        is_worth_labelling(games.last()) ==> {
            &&& games.len() == rolls[2].value + 3
            &&& rolls.len() == games.len() + 1
            &&& rolls[2].below == most_moves(settings)
            &&& 4 * rolls[2].below <= settings.width * settings.height < 4 * (rolls[2].below + 1)
        },
        forall|i: int|
            1 <= i < games.len() - 1 ==> {
                let hidden = patch::hidden_cells(#[trigger] games[i]);
                let roll = rolls[i + 2];
                &&& roll.below == hidden.len()
                &&& moves::revealed(
                    games[i],
                    hidden[roll.value as int].0 as int,
                    hidden[roll.value as int].1 as int,
                    games[i + 1],
                )
            },
{
    assert(9 <= settings.width * settings.height) by (nonlinear_arith)
        requires
            3 <= settings.width,
            3 <= settings.height,
    ;
    assert forall|i: int| 1 <= i < games.len() - 1 implies {
        let hidden = patch::hidden_cells(#[trigger] games[i]);
        let roll = rolls[i + 2];
        &&& roll.below == hidden.len()
        &&& moves::revealed(
            games[i],
            hidden[roll.value as int].0 as int,
            hidden[roll.value as int].1 as int,
            games[i + 1],
        )
    } by {
        let some = games.skip(1);
        let drawn = rolls.skip(3);
        assert(drawn_move(some[i - 1], drawn[i - 1], some[i - 1 + 1]));
    }
}

/// What a random game comes to was rolled, all of it: behind its boards stand dice that rolled
/// the first cell and, while the game went on, how many moves follow and the cell of each.
pub proof fn law_random_games_are_rolled(settings: Settings, game: Minesweeper)
    requires
        may_come_up(settings, game),
    ensures
        exists|games: Seq<Minesweeper>, dice: Dice|
            {
                let rolls = #[trigger] dice.rolls();
                &&& #[trigger] played_on(settings, games)
                &&& games.last() == game
                &&& rolls.len() == games.len() + 1
                &&& rolls[0].below == settings.width
                &&& rolls[1].below == settings.height
                &&& moves::revealed(
                    games[0],
                    rolls[0].value as int,
                    rolls[1].value as int,
                    games[1],
                )
                &&& games.len() == rolls[2].value + 3
            },
{
    let games = choose|games: Seq<Minesweeper>|
        {
            &&& #[trigger] played_on(settings, games)
            &&& games.len() >= 3
            &&& games.last() == game
            &&& is_worth_labelling(game)
            &&& played_by_chance(settings, games)
        };
    let dice = choose|dice: Dice| scripted(settings, games, #[trigger] dice.rolls());
    assert(played_on(settings, games));
    assert(scripted(settings, games, dice.rolls()));
    if games[1].state != GameState::Playing {
        assert(games.len() == 2);
    }
    assert(dice.rolls().len() == games.len() + 1);
}

/// A position is worth labelling just while the game is played and some cell is hidden.
pub proof fn law_positions_worth_labelling_have_hidden_cells(game: Minesweeper)
    ensures
        is_worth_labelling(game) <==> game.state == GameState::Playing && exists|
            x: usize,
            y: usize,
        |
            game.has(x as int, y as int) && (#[trigger] game.at(x as int, y as int)).state
                == CellState::Hidden,
{
    let test = patch::hidden_test(game);
    let list = patch::hidden_cells(game);
    board::lemma_scan(test, game.width, game.height);
    if list.len() > 0 {
        assert(test(list[0].0 as int, list[0].1 as int));
        assert(game.at(list[0].0 as int, list[0].1 as int).state == CellState::Hidden);
    }
    if exists|x: usize, y: usize|
        game.has(x as int, y as int) && (#[trigger] game.at(x as int, y as int)).state
            == CellState::Hidden {
        let (x, y) = choose|x: usize, y: usize|
            game.has(x as int, y as int) && (#[trigger] game.at(x as int, y as int)).state
                == CellState::Hidden;
        assert(test(x as int, y as int));
        assert(list.contains((x, y)));
    }
}

} // verus!
