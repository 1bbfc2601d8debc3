//! A board as a served page shows it.

use vstd::prelude::*;
use crate::big_nat::BigNat;
use crate::board::{CellContent, CellState, GameState, Minesweeper};
use crate::probability::consistent;
use crate::probability::constraint_search::ConstraintSearch;
use crate::probability::estimate::Estimate;
use crate::probability::setup;
use crate::probability::SimUpdate;
use crate::readout;
use crate::session;
use crate::session::Run;
use crate::status;
use crate::text;

verus! {

/// One cell of a page.
pub struct PageCell {
    pub state: CellState,
    pub content: CellContent,
    /// The colour behind it.
    pub prob_color: String,
    /// How likely it is a mine, in whole percent.
    pub prob_pct: String,
}

/// A page.
pub struct Page {
    pub width: usize,
    pub height: usize,
    pub mines_count: usize,
    pub state: GameState,
    pub grid: Vec<Vec<PageCell>>,
    pub mc_status: String,
    pub cs_status: String,
}

impl PageCell {
    /// Whether this is how a cell is shown.
    pub open spec fn shows(self, game: Minesweeper, probs: Estimate, x: int, y: int) -> bool {
        let part = probs.at(x, y);
        let whole = probs.total@;
        &&& self.state == game.at(x, y).state
        &&& self.content == game.at(x, y).content
        &&& self.prob_color@ == readout::rgb_colour(
            (readout::red(part, whole) as u8, readout::green(part, whole) as u8),
        )
        &&& self.prob_pct@ == text::decimal(readout::percent(part, whole)) + "%"@
    }
}

/// The estimate to show: the exact one where there is one.
pub open spec fn better(mc: Run, cs: Run) -> Estimate {
    if cs.valid > 0 {
        cs.probs
    } else {
        mc.probs
    }
}

impl Page {
    /// Whether this is the page of a board, given what sampling and the exact search came
    /// to.
    pub open spec fn shows(self, game: Minesweeper, mc: Run, cs: Run) -> bool {
        &&& self.width == game.width
        &&& self.height == game.height
        &&& self.mines_count == game.mines_count
        &&& self.state == game.state
        &&& self.grid@.len() == game.height
        &&& forall|y: int| 0 <= y < game.height ==> (#[trigger] self.grid@[y])@.len() == game.width
        &&& forall|x: int, y: int|
            game.has(x, y) ==> (#[trigger] self.grid@[y]@[x]).shows(game, better(mc, cs), x, y)
        &&& self.mc_status@ == status::line(
            "MC: "@,
            mc.valid as nat,
            " valid / "@,
            mc.attempts as nat,
            " sampled"@,
            mc.memory_bytes as nat,
        )
        &&& self.cs_status@ == status::line(
            "CS: "@,
            cs.valid as nat,
            " layouts / "@,
            cs.attempts as nat,
            " steps"@,
            cs.memory_bytes as nat,
        )
    }

    /// Makes the page of a board.
    pub fn new(game: &Minesweeper, mc: &Run, cs: &Run) -> (page: Self)
        requires
            game.wf(),
            mc.probs.wf(game.width as int, game.height as int),
            cs.probs.wf(game.width as int, game.height as int),
        ensures
            page.shows(*game, *mc, *cs),
    {
        let probs: &Estimate = if cs.valid > 0 {
            &cs.probs
        } else {
            &mc.probs
        };
        let mut grid: Vec<Vec<PageCell>> = Vec::new();
        for y in 0..game.height
            invariant
                game.wf(),
                probs.wf(game.width as int, game.height as int),
                grid@.len() == y,
                forall|j: int| 0 <= j < y ==> (#[trigger] grid@[j])@.len() == game.width,
                forall|i: int, j: int|
                    0 <= i < game.width && 0 <= j < y ==> (#[trigger] grid@[j]@[i]).shows(
                        *game,
                        *probs,
                        i,
                        j,
                    ),
        {
            let mut row: Vec<PageCell> = Vec::new();
            for x in 0..game.width
                invariant
                    game.wf(),
                    probs.wf(game.width as int, game.height as int),
                    y < game.height,
                    row@.len() == x,
                    forall|i: int|
                        0 <= i < x ==> (#[trigger] row@[i]).shows(*game, *probs, i, y as int),
            {
                assert(probs.mines@[y as int]@.len() == game.width);
                assert(probs.mines@[y as int]@[x as int].wf());
                let weight: &BigNat = &probs.mines[y][x];
                let colour: (u8, u8) = readout::tint(weight, &probs.total);
                row.push(
                    PageCell {
                        state: game.grid[y][x].state,
                        content: game.grid[y][x].content,
                        prob_color: readout::rgb_colour_text(colour),
                        prob_pct: readout::percent_text(weight, &probs.total),
                    },
                );
            }
            grid.push(row);
        }
        Self {
            width: game.width,
            height: game.height,
            mines_count: game.mines_count,
            state: game.state,
            grid,
            mc_status: status::sampling_result(mc.valid, mc.attempts, mc.memory_bytes),
            cs_status: status::search_result(cs.valid, cs.attempts, cs.memory_bytes),
        }
    }

    /// Asks both estimators and makes the page.
    pub fn index(game: &Minesweeper) -> (page: Self)
        requires
            game.wf(),
            game.width * game.height + 2 <= usize::MAX,
        ensures
            exists|search: ConstraintSearch, mc: Run, cs: Run, after: ConstraintSearch|
                {
                    &&& search.is_new(1_000_000)
                    &&& session::may_sample(*game, mc)
                    &&& #[trigger] session::may_search(search, *game, cs, after)
                    &&& #[trigger] page.shows(*game, mc, cs)
                },
    {
        let mc: Run = session::sampled(game);
        let mut exact = ConstraintSearch::new();
        let ghost search = exact;
        let cs: Run = session::searched(&mut exact, game);
        let page = Self::new(game, &mc, &cs);
        assert(session::may_search(search, *game, cs, exact) && page.shows(*game, mc, cs));
        page
    }
}

/// Whether a cell of a page shows a share: its percentage is the nearest whole one, and its
/// colour is the one of the share.
pub open spec fn shows_share(cell: PageCell, part: nat, whole: nat) -> bool {
    exists|pct: nat|
        {
            &&& #[trigger] text::decimal(pct) + "%"@ == cell.prob_pct@
            &&& 200 * part - whole <= 2 * (pct * whole) <= 200 * part + whole
            &&& cell.prob_color@ == readout::rgb_colour(
                (readout::red(part, whole) as u8, readout::green(part, whole) as u8),
            )
        }
}

/// Where the exact search has an answer, the page shows the exact share on every cell: of
/// all layouts that the player cannot rule out, those that put a mine there.
pub proof fn law_a_page_shows_the_exact_share(
    page: Page,
    game: Minesweeper,
    search: ConstraintSearch,
    after: ConstraintSearch,
    mc: Run,
    cs: Run,
    x: int,
    y: int,
)
    requires
        session::may_search(search, game, cs, after),
        page.shows(game, mc, cs),
        cs.valid > 0,
        consistent::possible(game),
        setup::unopened(game).len() <= usize::MAX,
        game.wf(),
        game.has(x, y),
    ensures
        consistent::consistent(game).len() > 0,
        shows_share(
            page.grid@[y]@[x],
            consistent::consistent_with_mine(game, (x, y)).len(),
            consistent::consistent(game).len(),
        ),
{
    let update = choose|update: SimUpdate<Estimate>| #[trigger]
        search.reports(game, update, after) && cs.says(update);
    assert(ConstraintSearch::exact(game, cs.probs));
    let part = consistent::consistent_with_mine(game, (x, y)).len();
    let whole = consistent::consistent(game).len();
    consistent::law_certainty_is_exact(game, (x, y));
    assert(cs.probs.at(x, y) == part);
    assert(cs.probs.total@ == whole);
    lemma_shown(page.grid@[y]@[x], game, cs.probs, x, y);
}

/// Where it has none, the page shows on every cell what sampling found.
pub proof fn law_a_page_falls_back_on_samples(
    page: Page,
    game: Minesweeper,
    mc: Run,
    cs: Run,
    x: int,
    y: int,
)
    requires
        page.shows(game, mc, cs),
        cs.valid == 0,
        mc.probs.total@ > 0,
        mc.probs.at(x, y) <= mc.probs.total@,
        game.has(x, y),
    ensures
        shows_share(page.grid@[y]@[x], mc.probs.at(x, y), mc.probs.total@),
{
    lemma_shown(page.grid@[y]@[x], game, mc.probs, x, y);
}

proof fn lemma_shown(cell: PageCell, game: Minesweeper, probs: Estimate, x: int, y: int)
    requires
        cell.shows(game, probs, x, y),
        probs.total@ > 0,
        probs.at(x, y) <= probs.total@,
    ensures
        shows_share(cell, probs.at(x, y), probs.total@),
{
    let (part, whole) = (probs.at(x, y), probs.total@);
    readout::law_shares_are_shown_to_the_nearest(part, whole);
    let pct = readout::percent(part, whole);
    assert(text::decimal(pct) + "%"@ == cell.prob_pct@);
}

/// A page shows the board as it is: its size, where the game stands, and every cell.
pub proof fn law_a_page_shows_the_board(
    page: Page,
    game: Minesweeper,
    mc: Run,
    cs: Run,
    x: int,
    y: int,
)
    requires
        page.shows(game, mc, cs),
        game.has(x, y),
    ensures
        page.width == game.width && page.height == game.height,
        page.mines_count == game.mines_count,
        page.state == game.state,
        page.grid@.len() == game.height && page.grid@[y]@.len() == game.width,
        page.grid@[y]@[x].state == game.at(x, y).state,
        page.grid@[y]@[x].content == game.at(x, y).content,
{
    assert(page.grid@[y]@[x].shows(game, better(mc, cs), x, y));
}

} // verus!
