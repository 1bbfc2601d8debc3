//! A game on a page: the board, what is known about it, and what the page is told.

use vstd::prelude::*;
use crate::autoplay;
use crate::moves;
use crate::moves::Move;
use crate::board;
use crate::board::{Cell, CellContent, CellState, GameState, Minesweeper};
use crate::probability;
use crate::probability::consistent;
use crate::probability::constraint_search::{ConstraintSearch, DEFAULT_MAX_NODES};
use crate::probability::estimate;
use crate::probability::estimate::Estimate;
use crate::probability::monte_carlo::MonteCarlo;
use crate::probability::patch::Fraction;
use crate::probability::patch_cnn::BoardScorer;
use crate::probability::setup;
use crate::probability::ProbabilityStrategy;
use crate::probability::SimUpdate;
use crate::settings::{Settings, MAX_PAGE_SIDE};

verus! {

/// Asks for the exact search, and for sampling where it finds no layout.
pub const AUTO: u32 = 0;

/// Asks for sampling only.
pub const MONTE_CARLO: u32 = 1;

/// Asks for the exact search only.
pub const CONSTRAINT_SEARCH: u32 = 2;

/// The byte for a visible mine; the bytes below it are visible numbers.
pub const VISIBLE_MINE: u8 = 9;

/// The byte for a hidden cell.
pub const HIDDEN: u8 = 10;

/// The byte for a flagged cell.
pub const FLAGGED: u8 = 11;

// ---------------------------------------------------------------------------
// Cells as bytes
// ---------------------------------------------------------------------------

/// The byte for a cell.
pub open spec fn cell_byte(cell: Cell) -> u8 {
    match cell.state {
        CellState::Hidden => 10,
        CellState::Flagged => 11,
        CellState::Visible => match cell.content {
            CellContent::Mine => 9,
            CellContent::Empty(n) => if n < 8 {
                n
            } else {
                8
            },
        },
    }
}

/// Encodes one cell as a single byte.
pub fn encode_cell(cell: &Cell) -> (byte: u8)
    ensures
        byte == cell_byte(*cell),
{
    match cell.state {
        CellState::Hidden => HIDDEN,
        CellState::Flagged => FLAGGED,
        CellState::Visible => match cell.content {
            CellContent::Mine => VISIBLE_MINE,
            CellContent::Empty(n) => if n < 8 {
                n
            } else {
                8
            },
        },
    }
}

/// A byte says what the player sees of a cell, and all of it: two cells with the same byte
/// look the same, as long as no number is above eight.
pub proof fn law_bytes_show_what_the_player_sees(a: Cell, b: Cell)
    requires
        a.content matches CellContent::Empty(n) ==> n <= 8,
        b.content matches CellContent::Empty(n) ==> n <= 8,
    ensures
        cell_byte(a) == cell_byte(b) <==> a.state == b.state && (a.state == CellState::Visible
            ==> a.content == b.content),
{
}

/// The bytes of a row.
pub open spec fn row_bytes(row: Seq<Cell>) -> Seq<u8> {
    Seq::new(row.len(), |x: int| cell_byte(row[x]))
}

/// The bytes of the first `y` rows, one after the other.
pub open spec fn board_bytes(grid: Seq<Vec<Cell>>, y: int) -> Seq<u8>
    decreases y,
{
    if y <= 0 {
        Seq::empty()
    } else {
        board_bytes(grid, y - 1) + row_bytes(grid[y - 1]@)
    }
}

/// Encodes a board, row by row.
pub fn encode_board(game: &Minesweeper) -> (bytes: Vec<u8>)
    ensures
        bytes@ == board_bytes(game.grid@, game.grid@.len() as int),
{
    let mut bytes: Vec<u8> = Vec::new();
    for y in 0..game.grid.len()
        invariant
            bytes@ == board_bytes(game.grid@, y as int),
    {
        let row: &Vec<Cell> = &game.grid[y];
        let ghost above = bytes@;
        for x in 0..row.len()
            invariant
                bytes@ == above + row_bytes(row@).take(x as int),
        {
            bytes.push(encode_cell(&row[x]));
            assert(bytes@ =~= above + row_bytes(row@).take(x + 1));
        }
        assert(row_bytes(row@).take(row@.len() as int) =~= row_bytes(row@));
    }
    bytes
}

/// The code of where a game stands.
pub open spec fn game_code(state: GameState) -> u32 {
    match state {
        GameState::Playing => 0,
        GameState::Won => 1,
        GameState::Lost => 2,
    }
}

/// The flagged cells of a board.
pub open spec fn flagged_test(game: Minesweeper) -> spec_fn(int, int) -> bool {
    |x: int, y: int| game.at(x, y).state == CellState::Flagged
}

// ---------------------------------------------------------------------------
// Running the estimators
// ---------------------------------------------------------------------------

/// What one strategy came to.
pub struct Run {
    pub probs: Estimate,
    pub valid: usize,
    pub attempts: usize,
    pub memory_bytes: usize,
}

impl Run {
    /// Whether this is what a final report says.
    pub open spec fn says(self, update: SimUpdate<Estimate>) -> bool {
        update matches SimUpdate::Done { strategy, attempts, valid, memory_bytes, probs } && self
            == (Run { probs, valid, attempts, memory_bytes })
    }
}

/// The limits that sampling has by default.
pub open spec fn default_sampling() -> MonteCarlo {
    MonteCarlo { max_valid: 10_000, max_attempts: 1_000_000 }
}

/// Whether a run of the exact search over a board may come to this.
pub open spec fn may_search(
    search: ConstraintSearch,
    game: Minesweeper,
    run: Run,
    after: ConstraintSearch,
) -> bool {
    exists|update: SimUpdate<Estimate>| #[trigger]
        search.reports(game, update, after) && run.says(update)
}

/// Whether sampling a board may come to this.
pub open spec fn may_sample(game: Minesweeper, run: Run) -> bool {
    exists|update: SimUpdate<Estimate>| #[trigger]
        default_sampling().may_report(game, update) && run.says(update)
}

/// Runs the exact search to its end.
pub fn searched(exact: &mut ConstraintSearch, game: &Minesweeper) -> (run: Run)
    requires
        old(exact).can_estimate(*game),
    ensures
        final(exact).wf(),
        final(exact).max_nodes == old(exact).max_nodes,
        may_search(*old(exact), *game, run, *final(exact)),
        run.probs.wf(game.width as int, game.height as int),
        autoplay::trusted(*game, run.probs, run.valid > 0),
{
    let update: SimUpdate<Estimate> = exact.calculate_with_progress(game);
    let ghost told = update;
    match update {
        SimUpdate::Done { strategy, attempts, valid, memory_bytes, probs } => {
            let run = Run { probs, valid, attempts, memory_bytes };
            assert(run.says(told));
            run
        },
        SimUpdate::Progress { strategy, attempts, valid, max_attempts, memory_bytes, probs } => {
            Run { probs, valid, attempts, memory_bytes }
        },
    }
}

/// Samples a board to the end.
pub fn sampled(game: &Minesweeper) -> (run: Run)
    requires
        game.wf(),
        game.width * game.height < usize::MAX,
    ensures
        may_sample(*game, run),
        run.probs.wf(game.width as int, game.height as int),
{
    let sampling = MonteCarlo::new();
    assert(sampling == default_sampling());
    let update: SimUpdate<Estimate> = sampling.final_report(game);
    let ghost told = update;
    match update {
        SimUpdate::Done { strategy, attempts, valid, memory_bytes, probs } => {
            let run = Run { probs, valid, attempts, memory_bytes };
            assert(run.says(told));
            run
        },
        SimUpdate::Progress { strategy, attempts, valid, max_attempts, memory_bytes, probs } => {
            Run { probs, valid, attempts, memory_bytes }
        },
    }
}

// ---------------------------------------------------------------------------
// The session
// ---------------------------------------------------------------------------

/// What the page is told about the estimators. Numbers that do not fit are cut to their
/// lowest bits.
#[derive(Debug, Clone, Copy, PartialEq, Eq, Structural)]
pub struct Stats {
    pub mc_valid: u32,
    pub mc_attempts: u32,
    pub mc_memory: u32,
    pub cs_valid: u32,
    pub cs_attempts: u32,
    pub cs_memory: u32,
    /// Which strategy's numbers are shown: what `AUTO` came to, never `AUTO` itself.
    pub used: u32,
    /// Group solutions found in the cache, and group solutions that had to be computed,
    /// since the session began.
    pub cache_hits: u32,
    pub cache_misses: u32,
}

impl Stats {
    /// The numbers in the order in which the page reads them.
    pub open spec fn listed(self) -> Seq<u32> {
        seq![
            self.mc_valid,
            self.mc_attempts,
            self.mc_memory,
            self.cs_valid,
            self.cs_attempts,
            self.cs_memory,
            self.used,
            self.cache_hits,
            self.cache_misses,
        ]
    }

    /// Nothing to tell.
    pub fn none() -> (stats: Self)
        ensures
            stats.listed() =~= seq![0u32, 0, 0, 0, 0, 0, 0, 0, 0],
    {
        Self {
            mc_valid: 0,
            mc_attempts: 0,
            mc_memory: 0,
            cs_valid: 0,
            cs_attempts: 0,
            cs_memory: 0,
            used: 0,
            cache_hits: 0,
            cache_misses: 0,
        }
    }

    /// Lists the numbers in the order in which the page reads them.
    pub fn list(&self) -> (numbers: Vec<u32>)
        ensures
            numbers@ == self.listed(),
    {
        let numbers: Vec<u32> = vec![
            self.mc_valid,
            self.mc_attempts,
            self.mc_memory,
            self.cs_valid,
            self.cs_attempts,
            self.cs_memory,
            self.used,
            self.cache_hits,
            self.cache_misses,
        ];
        assert(numbers@ =~= self.listed());
        numbers
    }
}

/// The lowest 32 bits of a number.
#[verifier::truncate]
fn low_bits(n: usize) -> (bits: u32)
    ensures
        bits == n as u32,
{
    n as u32
}

/// A game on a page.
pub struct Session {
    pub game: Minesweeper,
    /// The board, one byte for each cell.
    pub cells: Vec<u8>,
    /// What is shown of the estimators.
    pub probs: Estimate,
    /// Whether that is exact. A grid of zeros may mean only that there was no answer.
    pub proven: bool,
    pub stats: Stats,
    /// Kept across moves, not rebuilt for each call: its cache is what makes a second
    /// look at the same board nearly free.
    pub exact: ConstraintSearch,
    /// The scoring pass in flight, if any.
    pub scoring: Option<BoardScorer>,
}

/// What the estimators are asked for: the exact search unless only sampling is wanted.
pub open spec fn wants_search(mode: u32) -> bool {
    mode != 1
}

/// Whether sampling is wanted, given whether the search found a layout.
pub open spec fn wants_sampling(mode: u32, found: bool) -> bool {
    mode == 1 || mode == 0 && !found
}

/// Whether statistics report a search and a sampling run, either of which may not have
/// happened, and what the cache has served and missed since the session began.
pub open spec fn reports_runs(
    stats: Stats,
    cs: Option<Run>,
    mc: Option<Run>,
    tally: (u32, u32),
) -> bool {
    &&& match cs {
        Some(run) => stats.cs_valid == run.valid as u32 && stats.cs_attempts == run.attempts as u32
            && stats.cs_memory == run.memory_bytes as u32,
        None => stats.cs_valid == 0 && stats.cs_attempts == 0 && stats.cs_memory == 0,
    }
    &&& match mc {
        Some(run) => stats.mc_valid == run.valid as u32 && stats.mc_attempts == run.attempts as u32
            && stats.mc_memory == run.memory_bytes as u32,
        None => stats.mc_valid == 0 && stats.mc_attempts == 0 && stats.mc_memory == 0,
    }
    &&& stats.used == if mc is Some {
        1u32
    } else {
        2u32
    }
    &&& stats.cache_hits == tally.0
    &&& stats.cache_misses == tally.1
}

impl Session {
    /// The board can be played and is small enough for a page, the bytes are in step with
    /// it, and everything else fits it.
    pub open spec fn wf(self) -> bool {
        &&& self.in_step()
        &&& self.cells@ == board_bytes(self.game.grid@, self.game.grid@.len() as int)
    }

    /// The same, but for the bytes.
    pub open spec fn in_step(self) -> bool {
        &&& moves::healthy(self.game)
        &&& self.game.width <= 200
        &&& self.game.height <= 200
        &&& self.exact.wf()
        &&& self.exact.max_nodes == DEFAULT_MAX_NODES
        &&& self.probs.wf(self.game.width as int, self.game.height as int)
        &&& autoplay::trusted(self.game, self.probs, self.proven)
        &&& self.scoring matches Some(scorer) ==> scorer.wf()
    }

    /// Whether `after` is this session once the estimators have been asked.
    pub open spec fn computed(
        self,
        mode: u32,
        cs: Option<Run>,
        mc: Option<Run>,
        after: Session,
    ) -> bool {
        &&& after.game == self.game
        &&& after.cells == self.cells
        &&& after.scoring == self.scoring
        &&& cs is Some <==> wants_search(mode)
        &&& match cs {
            Some(run) => may_search(self.exact, self.game, run, after.exact),
            None => after.exact == self.exact,
        }
        &&& mc is Some <==> wants_sampling(mode, cs is Some && cs->0.valid > 0)
        &&& mc matches Some(run) ==> may_sample(self.game, run)
        &&& after.probs == match mc {
            Some(run) => run.probs,
            None => cs->0.probs,
        }
        &&& after.proven == (mc is None && cs->0.valid > 0)
        &&& reports_runs(after.stats, cs, mc, after.exact.start().tally)
    }

    /// Whether `asked` is this session on a board, once the estimators have been asked.
    pub open spec fn asks(self, mode: u32, game: Minesweeper, asked: Session) -> bool {
        exists|before: Session, cs: Option<Run>, mc: Option<Run>|
            {
                &&& #[trigger] before.computed(mode, cs, mc, asked)
                &&& before.game == game
                &&& before.exact == self.exact
                &&& before.scoring == self.scoring
            }
    }

    /// Whether `after` is this session once the estimators have been asked about a board on
    /// which propagation opened nothing, and what they prove has been played.
    pub open spec fn plays_answer(
        self,
        mode: u32,
        dried: Minesweeper,
        after: Session,
        opened: nat,
    ) -> bool {
        exists|asked: Session|
            {
                &&& #[trigger] self.asks(mode, dried, asked)
                &&& after.exact == asked.exact
                &&& after.scoring == asked.scoring
                &&& if asked.proven {
                    autoplay::flagged_then_opened(
                        dried,
                        autoplay::mined(dried, asked.probs),
                        autoplay::unmined(dried, asked.probs),
                        after.game,
                        opened,
                    )
                } else {
                    after.game == dried && opened == 0
                }
            }
    }

    /// Whether `after` is this session after one round: what propagation proves is played,
    /// and, where that opens nothing and the game goes on, what the estimators prove.
    #[verifier::opaque]
    pub open spec fn round(self, mode: u32, after: Session, opened: nat) -> bool {
        exists|middle: Minesweeper, first: nat|
            {
                &&& #[trigger] autoplay::proven_round(self.game, true, middle, first)
                &&& if first > 0 || middle.state != GameState::Playing {
                    &&& after.game == middle
                    &&& after.exact == self.exact
                    &&& after.scoring == self.scoring
                    &&& opened == first
                } else {
                    self.plays_answer(mode, middle, after, opened)
                }
            }
    }

    /// Whether a round that led here is followed by another one.
    pub open spec fn goes_on(self, opened: nat) -> bool {
        opened > 0 && self.game.state == GameState::Playing
    }

    /// Starts a game as near to what was asked for as a page can show.
    pub fn new(width: usize, height: usize, mines: usize) -> (session: Self)
        ensures
            session.wf(),
            session.game.width == Settings::nearest(
                width as int,
                height as int,
                mines as int,
                200,
            ).width,
            session.game.height == Settings::nearest(
                width as int,
                height as int,
                mines as int,
                200,
            ).height,
            session.game.mines_count == Settings::nearest(
                width as int,
                height as int,
                mines as int,
                200,
            ).mines,
            session.game.state == GameState::Playing,
            !session.game.mines_generated,
            forall|x: int, y: int|
                session.game.has(x, y) ==> (#[trigger] session.game.at(x, y)).state
                    == CellState::Hidden,
            session.stats.listed() =~= seq![0u32, 0, 0, 0, 0, 0, 0, 0, 0],
            session.scoring is None,
            session.exact.is_new(DEFAULT_MAX_NODES),
            !session.proven,
    {
        let settings = Settings::new(width, height, mines, MAX_PAGE_SIDE);
        let game: Minesweeper = moves::fresh(settings.width, settings.height, settings.mines);
        let cells: Vec<u8> = encode_board(&game);
        Self {
            cells,
            probs: estimate::empty_estimate(settings.width, settings.height),
            proven: false,
            stats: Stats::none(),
            exact: ConstraintSearch::new(),
            scoring: None,
            game,
        }
    }

    /// Re-encodes the board.
    fn sync_cells(&mut self)
        requires
            old(self).in_step(),
        ensures
            final(self).wf(),
            final(self).game == old(self).game,
            final(self).probs == old(self).probs,
            final(self).proven == old(self).proven,
            final(self).stats == old(self).stats,
            final(self).exact == old(self).exact,
            final(self).scoring == old(self).scoring,
    {
        self.cells = encode_board(&self.game);
    }

    /// Asks the estimators.
    ///
    /// The exact search runs first: it is usually far cheaper than many samples and its
    /// answers are exact, so sampling is paid for only where it is asked for, or where
    /// the search finds no layout.
    #[verifier::rlimit(50)]
    pub fn compute(&mut self, mode: u32)
        requires
            old(self).in_step(),
        ensures
            final(self).in_step(),
            exists|cs: Option<Run>, mc: Option<Run>| #[trigger]
                old(self).computed(mode, cs, mc, *final(self)),
    {
        proof {
            lemma_small(self.game);
        }
        let cs: Option<Run> = if mode != MONTE_CARLO {
            Some(searched(&mut self.exact, &self.game))
        } else {
            None
        };
        let found: bool = match &cs {
            Some(run) => run.valid > 0,
            None => false,
        };
        let mc: Option<Run> = if mode == MONTE_CARLO || mode == AUTO && !found {
            Some(sampled(&self.game))
        } else {
            None
        };
        let ghost runs = (cs, mc);
        let mut stats = Stats::none();
        if let Some(run) = &mc {
            stats.mc_valid = low_bits(run.valid);
            stats.mc_attempts = low_bits(run.attempts);
            stats.mc_memory = low_bits(run.memory_bytes);
        }
        if let Some(run) = &cs {
            stats.cs_valid = low_bits(run.valid);
            stats.cs_attempts = low_bits(run.attempts);
            stats.cs_memory = low_bits(run.memory_bytes);
        }
        let (hits, misses): (u32, u32) = self.exact.cache.counts();
        stats.cache_hits = hits;
        stats.cache_misses = misses;
        match mc {
            Some(run) => {
                stats.used = MONTE_CARLO;
                self.probs = run.probs;
                self.proven = false;
            },
            None => {
                stats.used = CONSTRAINT_SEARCH;
                if let Some(run) = cs {
                    self.probs = run.probs;
                    self.proven = run.valid > 0;
                }
            },
        }
        self.stats = stats;
        assert(old(self).computed(mode, runs.0, runs.1, *self));
    }
}

/// Whether sessions come one of another by rounds, each of which but the last is followed
/// by another one.
#[verifier::opaque]
pub open spec fn rounds(sessions: Seq<Session>, counts: Seq<nat>, mode: u32) -> bool {
    &&& sessions.len() == counts.len() + 1
    &&& forall|i: int|
        0 <= i < counts.len() ==> {
            &&& sessions[i].round(mode, sessions[i + 1], #[trigger] counts[i])
            &&& i < counts.len() - 1 ==> sessions[i + 1].goes_on(counts[i])
        }
}

/// What some counts add up to.
pub open spec fn added_up(counts: Seq<nat>) -> nat
    decreases counts.len(),
{
    if counts.len() == 0 {
        0
    } else {
        added_up(counts.drop_last()) + counts.last()
    }
}

/// Whether rounds lead from one session to another until none follows, and open so many
/// cells on the way.
pub open spec fn rounds_lead(first: Session, mode: u32, last: Session, opened: nat) -> bool {
    exists|sessions: Seq<Session>, counts: Seq<nat>|
        {
            &&& #[trigger] rounds(sessions, counts, mode)
            &&& counts.len() > 0
            &&& sessions[0] == first
            &&& sessions.last() == last
            &&& !last.goes_on(counts.last())
            &&& added_up(counts) == opened
        }
}

/// Whether the estimators have nothing more to give on a board: one that shows the same was
/// what they were asked about, and what they proved there is opened or flagged here.
pub open spec fn exhausted(mode: u32, game: Minesweeper) -> bool {
    exists|earlier: Session, asked: Session|
        {
            &&& earlier.exact.wf()
            &&& earlier.exact.max_nodes == DEFAULT_MAX_NODES
            &&& #[trigger] earlier.asks(mode, asked.game, asked)
            &&& setup::shows_the_same(asked.game, game)
            &&& forall|x: int, y: int|
                game.has(x, y) && (#[trigger] game.at(x, y)).state == CellState::Hidden
                    ==> asked.game.at(x, y).state == CellState::Hidden
            &&& asked.in_step()
            &&& asked.proven ==> {
                &&& autoplay::none_hidden(game, autoplay::unmined(asked.game, asked.probs))
                &&& autoplay::none_hidden(game, autoplay::mined(asked.game, asked.probs))
            }
        }
}

/// What comes of a board on which propagation has nothing to open: the mines it proves are
/// flagged and the estimators asked, and something is opened just where they prove a cell
/// safe. Otherwise no cell is opened.
pub open spec fn left_to_estimators(
    before: Session,
    mode: u32,
    after: Minesweeper,
    opened: nat,
) -> bool {
    exists|asked: Session|
        {
            &&& #[trigger] before.asks(mode, asked.game, asked)
            &&& autoplay::flags_put(
                before.game,
                probability::proven_mines(before.game),
                asked.game,
            )
            &&& opened > 0 <==> asked.proven && autoplay::unmined(
                asked.game,
                asked.probs,
            ).len() > 0
            &&& opened == 0 ==> after.state == GameState::Playing && setup::shows_the_same(
                before.game,
                after,
            )
        }
}

/// One more round.
proof fn lemma_next_round(
    sessions: Seq<Session>,
    counts: Seq<nat>,
    mode: u32,
    after: Session,
    opened: nat,
)
    requires
        rounds(sessions, counts, mode),
        counts.len() > 0 ==> sessions.last().goes_on(counts.last()),
        sessions.last().round(mode, after, opened),
    ensures
        rounds(sessions.push(after), counts.push(opened), mode),
        added_up(counts.push(opened)) == added_up(counts) + opened,
{
    reveal(rounds);
    let all = sessions.push(after);
    let more = counts.push(opened);
    assert(more.drop_last() =~= counts);
    assert forall|i: int| 0 <= i < more.len() implies {
        &&& all[i].round(mode, all[i + 1], #[trigger] more[i])
        &&& i < more.len() - 1 ==> all[i + 1].goes_on(more[i])
    } by {
        if i < counts.len() {
            assert(more[i] == counts[i]);
            assert(sessions[i].round(mode, sessions[i + 1], counts[i]));
        }
    }
}

/// More may be opened after that.
proof fn lemma_still_left(
    before: Session,
    mode: u32,
    middle: Minesweeper,
    some: nat,
    after: Minesweeper,
    opened: nat,
)
    requires
        left_to_estimators(before, mode, middle, some),
        0 < some <= opened,
    ensures
        left_to_estimators(before, mode, after, opened),
{
    let asked = choose|asked: Session|
        {
            &&& #[trigger] before.asks(mode, asked.game, asked)
            &&& autoplay::flags_put(
                before.game,
                probability::proven_mines(before.game),
                asked.game,
            )
            &&& some > 0 <==> asked.proven && autoplay::unmined(
                asked.game,
                asked.probs,
            ).len() > 0
            &&& some == 0 ==> middle.state == GameState::Playing && setup::shows_the_same(
                before.game,
                middle,
            )
        };
    assert(before.asks(mode, asked.game, asked));
}

/// What an estimate calls never mined is not what it calls always mined.
proof fn lemma_something_to_open(
    before: Minesweeper,
    probs: Estimate,
    after: Minesweeper,
)
    requires
        before.wf(),
        probs.total@ > 0,
        autoplay::flags_put(before, autoplay::mined(before, probs), after),
        autoplay::none_hidden(after, autoplay::unmined(before, probs)),
    ensures
        autoplay::unmined(before, probs).len() == 0,
{
    let never = autoplay::unmined(before, probs);
    let always = autoplay::mined(before, probs);
    board::lemma_scan(autoplay::unmined_test(before, probs), before.width, before.height);
    board::lemma_scan(autoplay::mined_test(before, probs), before.width, before.height);
    if never.len() > 0 {
        let p = never[0];
        assert(autoplay::unmined_test(before, probs)(p.0 as int, p.1 as int));
        assert(before.has(p.0 as int, p.1 as int));
        assert(after.at(p.0 as int, p.1 as int).state != CellState::Hidden);
        assert(always.contains(p));
        let i = choose|i: int| 0 <= i < always.len() && always[i] == p;
        assert(autoplay::mined_test(before, probs)(always[i].0 as int, always[i].1 as int));
    }
}

/// A board of a page has few cells.
proof fn lemma_small(game: Minesweeper)
    requires
        game.width <= 200,
        game.height <= 200,
    ensures
        setup::unopened(game).len() <= 40000,
        game.width * game.height <= 40000,
        game.hidden_spots().len() <= 40000,
{
    board::lemma_scan_bound(setup::unopened_test(game), game.width as int, game.height as int);
    moves::lemma_hidden_bound(game);
    assert(game.width * game.height <= 40000) by (nonlinear_arith)
        requires
            game.width <= 200,
            game.height <= 200,
    ;
}

// ---------------------------------------------------------------------------
// What the player does
// ---------------------------------------------------------------------------

impl Session {
    /// Whether everything but the board, its bytes, and whether the estimate still speaks
    /// of it, is the same.
    pub open spec fn same_rest(self, other: Session) -> bool {
        &&& self.probs == other.probs
        &&& self.stats == other.stats
        &&& self.exact == other.exact
        &&& self.scoring == other.scoring
    }

    /// Reveals a cell. Nothing happens off the board, nor once the game is over.
    pub fn reveal_at(&mut self, x: usize, y: usize)
        requires
            old(self).wf(),
        ensures
            final(self).wf(),
            final(self).same_rest(*old(self)),
            !old(self).game.has(x as int, y as int) ==> final(self).game == old(self).game,
            old(self).game.has(x as int, y as int) ==> moves::revealed(
                old(self).game,
                x as int,
                y as int,
                final(self).game,
            ),
            old(self).game.state == GameState::Playing && !old(self).game.mines_generated
                ==> final(self).game.state != GameState::Lost,
    {
        if x < self.game.width && y < self.game.height {
            if self.game.state == GameState::Playing {
                self.proven = false;
            }
            moves::reveal_on(&mut self.game, x, y);
            self.sync_cells();
        }
    }

    /// Toggles a flag. Nothing happens off the board, nor once the game is over.
    pub fn flag_at(&mut self, x: usize, y: usize)
        requires
            old(self).wf(),
        ensures
            final(self).wf(),
            final(self).same_rest(*old(self)),
            !old(self).game.has(x as int, y as int) || old(self).game.state != GameState::Playing
                ==> final(self).game == old(self).game,
            old(self).game.has(x as int, y as int) && old(self).game.state == GameState::Playing
                ==> old(self).game.flag_toggled(x as int, y as int, final(self).game),
    {
        if x < self.game.width && y < self.game.height {
            if self.game.state == GameState::Playing {
                self.proven = false;
            }
            moves::flag_on(&mut self.game, x, y);
            self.sync_cells();
        }
    }

    /// The code of where the game stands: 0 while it is played, 1 won, 2 lost.
    pub fn state_code(&self) -> (code: u32)
        ensures
            code == game_code(self.game.state),
    {
        match self.game.state {
            GameState::Playing => 0,
            GameState::Won => 1,
            GameState::Lost => 2,
        }
    }

    /// Counts the flags, for showing how many mines are left to find.
    pub fn flags(&self) -> (count: usize)
        requires
            self.wf(),
        ensures
            count == board::scan(
                flagged_test(self.game),
                self.game.width as int,
                self.game.height as int,
            ).len(),
    {
        let mut count: usize = 0;
        let ghost test = flagged_test(self.game);
        for y in 0..self.game.height
            invariant
                self.wf(),
                test == flagged_test(self.game),
                count == board::scan(test, self.game.width as int, y as int).len(),
                count <= y * 200,
        {
            let ghost above = count as int;
            for x in 0..self.game.width
                invariant
                    self.wf(),
                    y < self.game.height,
                    test == flagged_test(self.game),
                    count == above + board::scan_row(test, y as int, x as int).len(),
                    count <= above + x,
                    above <= y * 200,
            {
                if self.game.grid[y][x].state == CellState::Flagged {
                    count = count + 1;
                }
            }
        }
        count
    }

    /// Opens every cell that can be proven safe and flags every cell proven to be a mine,
    /// again and again until nothing further follows. Returns how many cells it opened.
    ///
    /// Goes round by round on propagation, which costs no search, and asks the estimators
    /// only where that runs dry. Only the exact search proves anything: where what came
    /// back is sampled, or no answer at all, playing stops there. In the end the
    /// estimators are asked once more, about the board that is left.
    #[verifier::rlimit(50)]
    pub fn auto_reveal(&mut self, mode: u32) -> (revealed: usize)
        requires
            old(self).wf(),
        ensures
            final(self).wf(),
            old(self).game.state != GameState::Playing || !old(self).game.mines_generated
                ==> revealed == 0 && *final(self) == *old(self),
            old(self).game.state == GameState::Playing && old(self).game.mines_generated ==> {
                &&& final(self).game.same_frame(old(self).game)
                &&& final(self).game.same_contents(old(self).game)
                &&& exists|last: Session| #[trigger]
                    rounds_lead(*old(self), mode, last, revealed as nat) && last.asks(
                        mode,
                        final(self).game,
                        *final(self),
                    ) && last.game == final(self).game
                &&& exists|moves: Seq<Move>| #[trigger]
                    autoplay::leads_on_proof(old(self).game, moves, final(self).game) && revealed
                        == moves::opens(moves)
                &&& autoplay::none_hidden(
                    old(self).game,
                    probability::proven_safe(old(self).game),
                ) ==> left_to_estimators(*old(self), mode, final(self).game, revealed as nat)
                &&& !autoplay::none_hidden(
                    old(self).game,
                    probability::proven_safe(old(self).game),
                ) ==> revealed > 0
                &&& final(self).game.state == GameState::Playing ==> exhausted(
                    mode,
                    final(self).game,
                )
                &&& final(self).game.state != GameState::Lost
                &&& autoplay::flags_right(old(self).game, final(self).game)
                &&& final(self).game.state == GameState::Playing ==> autoplay::dry(
                    final(self).game,
                )
            },
    {
        if self.game.state != GameState::Playing || !self.game.mines_generated {
            return 0;
        }
        let ghost start = self.game;
        let ghost first = *self;
        let ghost mut moves: Seq<Move> = Seq::empty();
        let ghost mut sessions: Seq<Session> = seq![first];
        let ghost mut counts: Seq<nat> = Seq::empty();
        let mut revealed: usize = 0;
        let mut more: bool = true;
        proof {
            autoplay::lemma_on_proof_nowhere(start);
            lemma_small(start);
            assert(rounds(sessions, counts, mode)) by {
                reveal(rounds);
            }
        }
        while more
            invariant
                first == *old(self),
                start == first.game,
                rounds(sessions, counts, mode),
                sessions.len() == counts.len() + 1,
                sessions[0] == first,
                sessions.last() == *self,
                counts.len() > 0 ==> more == sessions.last().goes_on(counts.last()),
                counts.len() == 0 ==> more,
                added_up(counts) == revealed,
                counts.len() == 0 ==> self.game == start && self.exact == first.exact
                    && self.scoring == first.scoring && revealed == 0,
                more && counts.len() > 0 ==> revealed > 0,
                counts.len() > 0 && autoplay::none_hidden(start, probability::proven_safe(start))
                    ==> left_to_estimators(first, mode, self.game, revealed as nat),
                counts.len() > 0 && !autoplay::none_hidden(start, probability::proven_safe(start))
                    ==> revealed > 0,
                !more && self.game.state == GameState::Playing ==> exhausted(mode, self.game),
                moves::fair(start),
                start.width <= 200,
                start.height <= 200,
                start.hidden_spots().len() <= 40000,
                self.in_step(),
                self.game.same_frame(start),
                self.game.same_contents(start),
                self.game.mines_generated,
                self.game.state != GameState::Lost,
                more ==> self.game.state == GameState::Playing,
                autoplay::leads_on_proof(start, moves, self.game),
                revealed == moves::opens(moves),
                self.game.hidden_spots().len() <= start.hidden_spots().len(),
                revealed <= 40000 * (start.hidden_spots().len() - self.game.hidden_spots().len()),
                autoplay::flags_right(start, self.game),
                !more && self.game.state == GameState::Playing ==> autoplay::dry(self.game),
            decreases
                    self.game.hidden_spots().len(),
                    (if more {
                        1int
                    } else {
                        0int
                    }),
        {
            let ghost before = self.game;
            let ghost earlier = *self;
            proof {
                lemma_small(before);
            }
            self.proven = false;
            let opened: usize = autoplay::play_proven(&mut self.game, true);
            let ghost middle = self.game;
            proof {
                let next = choose|next: Seq<Move>| #[trigger]
                    autoplay::leads_on_proof(before, next, self.game) && opened == moves::opens(
                        next,
                    );
                autoplay::lemma_on_proof_leads(before, next, self.game);
                autoplay::lemma_on_proof_leads(start, moves, before);
                autoplay::lemma_go_on(start, moves, before, next, self.game);
                autoplay::lemma_on_proof_through(start, moves, before, next, self.game);
                moves = moves + next;
            }
            revealed = revealed + opened;
            let ghost mut found_now: nat = opened as nat;
            if self.game.state != GameState::Playing {
                more = false;
            } else if opened == 0 {
                self.sync_cells();
                let ghost asking = *self;
                self.compute(mode);
                let ghost asked = *self;
                proof {
                    let (cs, mc) = choose|cs: Option<Run>, mc: Option<Run>| #[trigger]
                        asking.computed(mode, cs, mc, asked);
                    assert(asking.computed(mode, cs, mc, asked));
                    assert(earlier.asks(mode, middle, asked));
                }
                more = false;
                if self.proven {
                    let ghost dried = self.game;
                    let mines: Vec<(usize, usize)> = autoplay::list_certain(
                        &self.game,
                        &self.probs,
                        true,
                    );
                    let safe: Vec<(usize, usize)> = autoplay::list_certain(
                        &self.game,
                        &self.probs,
                        false,
                    );
                    proof {
                        lemma_small(dried);
                        autoplay::lemma_proven_on_board(dried);
                        autoplay::lemma_exact_is_true(dried, dried, self.probs);
                        autoplay::lemma_exact_is_proof(dried, self.probs);
                        board::lemma_scan_bound(
                            autoplay::unmined_test(dried, self.probs),
                            dried.width as int,
                            dried.height as int,
                        );
                    }
                    self.proven = false;
                    let found: usize = autoplay::flag_then_open(&mut self.game, &mines, &safe);
                    proof {
                        let next = choose|next: Seq<Move>| #[trigger]
                            moves::leads(dried, next, self.game) && found == moves::opens(next)
                                && autoplay::only_these(next, mines@, safe@);
                        autoplay::lemma_proven_at_once(dried, next, self.game, mines@, safe@);
                        autoplay::lemma_on_proof_leads(start, moves, dried);
                        autoplay::lemma_go_on(start, moves, dried, next, self.game);
                        autoplay::lemma_on_proof_through(start, moves, dried, next, self.game);
                        moves = moves + next;
                        if found == 0 {
                            autoplay::lemma_flags_keep_dry(dried, mines@, self.game);
                            autoplay::lemma_flags_show_the_same(dried, mines@, self.game);
                            lemma_something_to_open(dried, asked.probs, self.game);
                        }
                        found_now = found as nat;
                    }
                    revealed = revealed + found;
                    more = found > 0 && self.game.state == GameState::Playing;
                }
                proof {
                    assert(earlier.plays_answer(mode, middle, *self, found_now));
                    if !more && self.game.state == GameState::Playing {
                        assert(setup::shows_the_same(asked.game, self.game));
                        assert forall|x: int, y: int|
                            self.game.has(x, y) && (#[trigger] self.game.at(x, y)).state
                                == CellState::Hidden implies asked.game.at(x, y).state
                            == CellState::Hidden by {
                            assert(asked.game.has(x, y));
                        }
                        assert(exhausted(mode, self.game));
                    }
                    if counts.len() == 0 {
                        autoplay::lemma_flags_show_the_same(
                            start,
                            probability::proven_mines(start),
                            middle,
                        );
                        if found_now == 0 {
                            setup::lemma_shows_on(start, middle, self.game);
                        }
                        assert(left_to_estimators(first, mode, self.game, revealed as nat));
                    }
                }
            }
            proof {
                if counts.len() > 0 && autoplay::none_hidden(
                    start,
                    probability::proven_safe(start),
                ) {
                    lemma_still_left(
                        first,
                        mode,
                        earlier.game,
                        added_up(counts),
                        self.game,
                        revealed as nat,
                    );
                }
                assert(autoplay::proven_round(earlier.game, true, middle, opened as nat));
                assert(earlier.round(mode, *self, found_now)) by {
                    reveal(Session::round);
                }
                lemma_next_round(sessions, counts, mode, *self, found_now);
                sessions = sessions.push(*self);
                counts = counts.push(found_now);
            }
        }
        self.sync_cells();
        let ghost last = *self;
        self.compute(mode);
        proof {
            let (cs, mc) = choose|cs: Option<Run>, mc: Option<Run>| #[trigger]
                last.computed(mode, cs, mc, *self);
            assert(last.computed(mode, cs, mc, *self));
            let end = sessions.last();
            assert(end.asks(mode, self.game, *self));
            assert(rounds_lead(first, mode, end, revealed as nat));
        }
        revealed
    }
}

// ---------------------------------------------------------------------------
// Scoring by a network
// ---------------------------------------------------------------------------

impl Session {
    /// Starts scoring the board, if there is a network to score it. Returns how many cells
    /// will be scored.
    ///
    /// Any pass already running is abandoned: it was measuring a board that no longer
    /// exists, and half of one position beside half of another is not a reading of
    /// anything.
    pub fn begin_scoring(&mut self, ready: bool) -> (count: usize)
        requires
            old(self).wf(),
        ensures
            final(self).wf(),
            final(self).game == old(self).game,
            final(self).probs == old(self).probs,
            final(self).proven == old(self).proven,
            final(self).stats == old(self).stats,
            final(self).exact == old(self).exact,
            !ready ==> count == 0 && final(self).scoring is None,
            ready ==> {
                &&& count == setup::unopened(old(self).game).len()
                &&& final(self).scoring matches Some(scorer) && scorer.wf()
                    && scorer.source.describes(old(self).game) && scorer.left()
                    == setup::unopened(old(self).game)
            },
    {
        if !ready {
            self.scoring = None;
            return 0;
        }
        proof {
            lemma_small(self.game);
        }
        let scorer = BoardScorer::new(&self.game);
        let count: usize = scorer.remaining();
        self.scoring = Some(scorer);
        count
    }

    /// Hands out up to `budget` more cells to score, each with its patch, and says how
    /// many are still to do. Once all are handed out the pass is over.
    pub fn next_to_score(&mut self, budget: usize) -> (batch: (
        Vec<((usize, usize), Vec<Fraction>)>,
        usize,
    ))
        requires
            old(self).wf(),
        ensures
            final(self).wf(),
            final(self).game == old(self).game,
            final(self).probs == old(self).probs,
            final(self).proven == old(self).proven,
            final(self).stats == old(self).stats,
            final(self).exact == old(self).exact,
            match old(self).scoring {
                None => batch.0@.len() == 0 && batch.1 == 0 && final(self).scoring is None,
                Some(before) => {
                    &&& batch.0@.len() == if budget < before.left().len() {
                        budget as nat
                    } else {
                        before.left().len()
                    }
                    &&& batch.1 == before.left().len() - batch.0@.len()
                    &&& forall|i: int|
                        0 <= i < batch.0@.len() ==> (#[trigger] batch.0@[i]).0 == before.left()[i]
                            && batch.0@[i].1@ == before.source.patch(
                            batch.0@[i].0.0 as int,
                            batch.0@[i].0.1 as int,
                        )
                    &&& final(self).scoring is None <==> batch.1 == 0
                    &&& final(self).scoring matches Some(after) ==> after.wf() && after.source
                        == before.source && after.left() == before.left().skip(
                        batch.0@.len() as int,
                    )
                },
            },
    {
        let taken: Option<BoardScorer> = self.scoring.take();
        match taken {
            None => (Vec::new(), 0),
            Some(scorer) => {
                let mut scorer = scorer;
                let batch: Vec<((usize, usize), Vec<Fraction>)> = scorer.step(budget);
                let left: usize = scorer.remaining();
                if left > 0 {
                    self.scoring = Some(scorer);
                }
                (batch, left)
            },
        }
    }

    /// Whether a network may learn from this board: once the mines are placed.
    pub fn can_learn(&self) -> (can: bool)
        ensures
            can == self.game.mines_generated,
    {
        self.game.mines_generated
    }
}

// ---------------------------------------------------------------------------
// Laws of a session
// ---------------------------------------------------------------------------

/// The bytes of a board stand row by row: that of `(x, y)` at `y` times the width plus `x`.
pub proof fn law_bytes_stand_row_by_row(grid: Seq<Vec<Cell>>, width: nat, upto: int, x: int, y: int)
    requires
        0 <= y < upto <= grid.len(),
        0 <= x < width,
        forall|j: int| 0 <= j < grid.len() ==> (#[trigger] grid[j])@.len() == width,
    ensures
        board_bytes(grid, upto).len() == upto * width,
        board_bytes(grid, upto)[y * width + x] == cell_byte(grid[y]@[x]),
    decreases upto,
{
    lemma_bytes_len(grid, width, upto);
    lemma_bytes_len(grid, width, upto - 1);
    let front = board_bytes(grid, upto - 1);
    assert(grid[y]@.len() == width);
    assert(0 <= y * width) by (nonlinear_arith)
        requires
            0 <= y,
            0 <= width,
    ;
    if y < upto - 1 {
        law_bytes_stand_row_by_row(grid, width, upto - 1, x, y);
        assert(y * width + x < (upto - 1) * width) by (nonlinear_arith)
            requires
                0 <= y < upto - 1,
                0 <= x < width,
        ;
    } else {
        assert(board_bytes(grid, upto)[y * width + x] == row_bytes(grid[y]@)[x]);
    }
}

proof fn lemma_bytes_len(grid: Seq<Vec<Cell>>, width: nat, upto: int)
    requires
        0 <= upto <= grid.len(),
        forall|j: int| 0 <= j < grid.len() ==> (#[trigger] grid[j])@.len() == width,
    ensures
        board_bytes(grid, upto).len() == upto * width,
    decreases upto,
{
    if upto > 0 {
        lemma_bytes_len(grid, width, upto - 1);
        assert(grid[upto - 1]@.len() == width);
        assert((upto - 1) * width + width == upto * width) by (nonlinear_arith);
    } else {
        assert(0 * width == 0) by (nonlinear_arith);
    }
}

/// A byte is the number that an open cell shows, nine for an open mine, ten for a hidden
/// cell and eleven for a flagged one, whatever lies under those.
pub proof fn law_bytes_are_numbers_where_they_can_be(cell: Cell)
    ensures
        cell.state == CellState::Visible ==> (cell.content matches CellContent::Empty(n) ==> n <= 8
            ==> cell_byte(cell) == n),
        cell.state == CellState::Visible && cell.content == CellContent::Mine <==> cell_byte(cell)
            == VISIBLE_MINE,
        cell.state == CellState::Hidden <==> cell_byte(cell) == HIDDEN,
        cell.state == CellState::Flagged <==> cell_byte(cell) == FLAGGED,
{
}

/// What comes of asking the estimators. Asked for the exact search, alone or before
/// sampling, the session shows the exact shares wherever the search has an answer, and calls
/// them proven. Asked for sampling, it shows what sampling found, and calls nothing proven.
/// Nor does it where the search has no answer; asked for both, it then shows what sampling
/// found.
pub proof fn law_exact_answers_are_shown(
    before: Session,
    mode: u32,
    cs: Option<Run>,
    mc: Option<Run>,
    after: Session,
)
    requires
        before.computed(mode, cs, mc, after),
        mode == AUTO || mode == MONTE_CARLO || mode == CONSTRAINT_SEARCH,
    ensures
        mode == MONTE_CARLO <==> cs is None,
        cs is Some && cs->0.valid > 0 ==> after.proven && after.probs == cs->0.probs
            && after.stats.used == CONSTRAINT_SEARCH && mc is None,
        cs is Some && cs->0.valid > 0 && consistent::possible(before.game)
            ==> ConstraintSearch::exact(before.game, after.probs),
        cs is Some && cs->0.valid == 0 ==> !after.proven,
        mode == AUTO && cs->0.valid == 0 ==> mc is Some && after.probs == mc->0.probs
            && after.stats.used == MONTE_CARLO,
        mode == CONSTRAINT_SEARCH ==> mc is None && after.stats.used == CONSTRAINT_SEARCH,
        mode == MONTE_CARLO ==> mc is Some && after.probs == mc->0.probs && !after.proven
            && after.stats.used == MONTE_CARLO,
        after.game == before.game,
{
    if cs is Some {
        let run = cs->0;
        let update = choose|update: SimUpdate<Estimate>| #[trigger]
            before.exact.reports(before.game, update, after.exact) && run.says(update);
        assert(run.says(update));
    }
}

/// Where the page finds the numbers: those of sampling first, then those of the search, each
/// what was found, what was tried and what it took; then which of them is shown; and last
/// what the cache has served and missed.
pub proof fn law_statistics_have_their_places(
    before: Session,
    mode: u32,
    cs: Option<Run>,
    mc: Option<Run>,
    after: Session,
)
    requires
        before.computed(mode, cs, mc, after),
    ensures
        ({
            let list = after.stats.listed();
            &&& list.len() == 9
            &&& mc matches Some(run) ==> list[0] == run.valid as u32 && list[1]
                == run.attempts as u32 && list[2] == run.memory_bytes as u32
            &&& mc is None ==> list[0] == 0 && list[1] == 0 && list[2] == 0
            &&& cs matches Some(run) ==> list[3] == run.valid as u32 && list[4]
                == run.attempts as u32 && list[5] == run.memory_bytes as u32
            &&& cs is None ==> list[3] == 0 && list[4] == 0 && list[5] == 0
            &&& list[6] == after.stats.used
            &&& list[7] == after.exact.start().tally.0
            &&& list[8] == after.exact.start().tally.1
        }),
{
}

/// The codes of where a game stands differ.
pub proof fn law_game_codes_differ(a: GameState, b: GameState)
    ensures
        game_code(a) == game_code(b) <==> a == b,
        game_code(GameState::Playing) == 0,
{
}

/// Where auto-play has come to its end and the search had an answer, nothing is left but
/// guesses: of every cell that is still hidden, some layout that the player cannot rule out
/// puts a mine there, and some does not.
pub proof fn law_auto_play_leaves_only_guesses(mode: u32, game: Minesweeper)
    requires
        exhausted(mode, game),
        moves::fair(game),
    ensures
        exists|earlier: Session, asked: Session|
            {
                &&& earlier.exact.max_nodes == DEFAULT_MAX_NODES
                &&& #[trigger] earlier.asks(mode, asked.game, asked)
                &&& setup::shows_the_same(asked.game, game)
                &&& asked.proven ==> only_guesses(game)
            },
{
    let (earlier, asked) = choose|earlier: Session, asked: Session|
        {
            &&& earlier.exact.wf()
            &&& earlier.exact.max_nodes == DEFAULT_MAX_NODES
            &&& #[trigger] earlier.asks(mode, asked.game, asked)
            &&& setup::shows_the_same(asked.game, game)
            &&& forall|x: int, y: int|
                game.has(x, y) && (#[trigger] game.at(x, y)).state == CellState::Hidden
                    ==> asked.game.at(x, y).state == CellState::Hidden
            &&& asked.in_step()
            &&& asked.proven ==> {
                &&& autoplay::none_hidden(game, autoplay::unmined(asked.game, asked.probs))
                &&& autoplay::none_hidden(game, autoplay::mined(asked.game, asked.probs))
            }
        };
    assert(earlier.asks(mode, asked.game, asked));
    if asked.proven {
        let seen = asked.game;
        let probs = asked.probs;
        lemma_small(seen);
        consistent::law_the_real_mines_are_consistent(game);
        consistent::lemma_shows_the_same(seen, game);
        assert(consistent::consistent(game).contains(consistent::hidden_mines(game)));
        assert(consistent::consistent(seen).contains(consistent::hidden_mines(game)));
        assert(consistent::possible(seen));
        assert forall|x: int, y: int|
            game.has(x, y) && (#[trigger] game.at(x, y)).state
                == CellState::Hidden implies !autoplay::surely_safe(game, (x, y))
            && !autoplay::surely_mined(game, (x, y)) by {
            let never = autoplay::unmined(seen, probs);
            let always = autoplay::mined(seen, probs);
            let p = (x as usize, y as usize);
            assert(seen.at(x, y).state == CellState::Hidden);
            assert(seen.has(x, y));
            autoplay::law_only_none_and_all_are_certain(seen, probs, p.0, p.1);
            consistent::law_certainty_is_exact(seen, (x, y));
            assert(probs.at(x, y) == consistent::consistent_with_mine(seen, (x, y)).len());
            if never.contains(p) {
                let i = choose|i: int| 0 <= i < never.len() && never[i] == p;
                assert(game.at(never[i].0 as int, never[i].1 as int).state != CellState::Hidden);
            }
            if always.contains(p) {
                let i = choose|i: int| 0 <= i < always.len() && always[i] == p;
                assert(game.at(always[i].0 as int, always[i].1 as int).state != CellState::Hidden);
            }
            if autoplay::surely_safe(game, (x, y)) {
                assert forall|m: Set<(int, int)>| #[trigger]
                    consistent::consistent(seen).contains(m) implies !m.contains((x, y)) by {
                    assert(consistent::consistent(game).contains(m));
                }
            }
            if autoplay::surely_mined(game, (x, y)) {
                assert forall|m: Set<(int, int)>| #[trigger]
                    consistent::consistent(seen).contains(m) implies m.contains((x, y)) by {
                    assert(consistent::consistent(game).contains(m));
                }
            }
        }
    }
}

/// Whether no hidden cell of a board is certain.
pub open spec fn only_guesses(game: Minesweeper) -> bool {
    forall|x: int, y: int|
        game.has(x, y) && (#[trigger] game.at(x, y)).state == CellState::Hidden
            ==> !autoplay::surely_safe(game, (x, y)) && !autoplay::surely_mined(game, (x, y))
}

/// The flags are counted each once: the list that is counted holds the flagged cells, and
/// nothing else.
pub proof fn law_flags_are_counted(game: Minesweeper, x: usize, y: usize)
    requires
        game.has(x as int, y as int),
    ensures
        ({
            let list = board::scan(flagged_test(game), game.width as int, game.height as int);
            &&& list.contains((x, y)) <==> game.at(x as int, y as int).state == CellState::Flagged
            &&& list.no_duplicates()
        }),
{
    let test = flagged_test(game);
    let list = board::scan(test, game.width as int, game.height as int);
    board::lemma_scan(test, game.width, game.height);
    if list.contains((x, y)) {
        let i = choose|i: int| 0 <= i < list.len() && list[i] == (x, y);
        assert(test(list[i].0 as int, list[i].1 as int));
    }
    if game.at(x as int, y as int).state == CellState::Flagged {
        assert(test(x as int, y as int));
    }
    assert forall|i: int, j: int| 0 <= i < list.len() && 0 <= j < list.len() && i
        != j implies list[i] != list[j] by {
        if i < j {
            assert(board::earlier(list[i], list[j]));
        } else {
            assert(board::earlier(list[j], list[i]));
        }
    }
}

} // verus!
